//! Declarative authorization rules and their evaluation against a caller's
//! proof set.
//!
//! Rule operands are soft: either a literal address, or a path into the
//! contract's own state resolved at evaluation time. Evaluation works on
//! the resolved (hard) form; a reference that failed to resolve satisfies
//! nothing, it never crashes the check.

use vstd::prelude::*;
use crate::locked::{LockedAmountOrIds, NonFungibleAddress};
use crate::proofs::{Proof, ProofError, compute_max_amounts, flat_amounts, proof_matches, total_max_amount};
use crate::sbor_path::SborPath;

verus! {

/// A resource operand: a literal address, or a path resolved at evaluation
/// time.
#[derive(Debug, Clone)]
pub enum SoftResource {
    Static(u64),
    Dynamic(SborPath),
}

/// A resource-or-non-fungible operand.
#[derive(Debug, Clone)]
pub enum SoftResourceOrNonFungible {
    StaticNonFungible(NonFungibleAddress),
    StaticResource(u64),
    Dynamic(SborPath),
}

/// A list operand: a literal list, or a path resolved at evaluation time.
#[derive(Debug, Clone)]
pub enum SoftResourceOrNonFungibleList {
    Static(Vec<SoftResourceOrNonFungible>),
    Dynamic(SborPath),
}

/// An authorization rule over soft operands; immutable data, not a closure.
#[derive(Debug, Clone)]
pub enum ProofRule {
    /// A presented proof must attest to this exact resource or
    /// non-fungible.
    This(SoftResourceOrNonFungible),
    /// Presented proofs must jointly prove at least this amount.
    AmountOf(u128, SoftResource),
    /// At least this many of the listed references must be satisfied.
    CountOf(u8, SoftResourceOrNonFungibleList),
    AllOf(SoftResourceOrNonFungibleList),
    AnyOf(SoftResourceOrNonFungibleList),
}

/// A resolved resource-or-non-fungible operand. A dynamic reference whose
/// resolution failed becomes `SoftResourceNotFound`, which satisfies
/// nothing.
#[derive(Debug, Clone)]
pub enum HardResourceOrNonFungible {
    NonFungible(NonFungibleAddress),
    Resource(u64),
    SoftResourceNotFound,
}

/// An authorization rule with every operand resolved.
#[derive(Debug, Clone)]
pub enum HardProofRule {
    This(HardResourceOrNonFungible),
    AmountOf(u128, HardResourceOrNonFungible),
    CountOf(u8, Vec<HardResourceOrNonFungible>),
    AllOf(Vec<HardResourceOrNonFungible>),
    AnyOf(Vec<HardResourceOrNonFungible>),
}

/// The proof attests to the resource with at least one unit of balance.
pub open spec fn proof_has_resource(p: Proof, resource_def_id: u64) -> bool {
    p.resource_def_id == resource_def_id && !p.total_locked.is_empty_spec()
}

/// The proof attests to this specific non-fungible.
pub open spec fn proof_has_non_fungible(p: Proof, a: NonFungibleAddress) -> bool {
    p.resource_def_id == a.resource_def_id && p.total_locked.ids_set().contains(a.non_fungible_id)
}

/// Some held proof covers the reference.
pub open spec fn satisfies_ref(proofs: Seq<Proof>, h: HardResourceOrNonFungible) -> bool {
    match h {
        HardResourceOrNonFungible::Resource(r) => exists|i: int|
            0 <= i < proofs.len() && proof_has_resource(#[trigger] proofs[i], r),
        HardResourceOrNonFungible::NonFungible(a) => exists|i: int|
            0 <= i < proofs.len() && proof_has_non_fungible(#[trigger] proofs[i], a),
        HardResourceOrNonFungible::SoftResourceNotFound => false,
    }
}

/// How many of the listed references are satisfied.
pub open spec fn count_satisfied(proofs: Seq<Proof>, list: Seq<HardResourceOrNonFungible>) -> int
    decreases list.len(),
{
    if list.len() == 0 {
        0int
    } else {
        count_satisfied(proofs, list.drop_last()) + (if satisfies_ref(proofs, list.last()) {
            1int
        } else {
            0int
        })
    }
}

pub open spec fn any_satisfied(proofs: Seq<Proof>, list: Seq<HardResourceOrNonFungible>) -> bool {
    exists|k: int| 0 <= k < list.len() && satisfies_ref(proofs, #[trigger] list[k])
}

pub open spec fn all_satisfied(proofs: Seq<Proof>, list: Seq<HardResourceOrNonFungible>) -> bool {
    forall|k: int| 0 <= k < list.len() ==> satisfies_ref(proofs, #[trigger] list[k])
}

/// What a resolved rule means against a proof set.
pub open spec fn rule_satisfied(proofs: Seq<Proof>, rule: HardProofRule) -> bool {
    match rule {
        HardProofRule::This(h) => satisfies_ref(proofs, h),
        HardProofRule::AmountOf(amount, h) => match h {
            HardResourceOrNonFungible::Resource(r) => total_max_amount(flat_amounts(proofs, r))
                >= amount,
            _ => false,
        },
        HardProofRule::CountOf(n, list) => count_satisfied(proofs, list@) >= n,
        HardProofRule::AllOf(list) => all_satisfied(proofs, list@),
        HardProofRule::AnyOf(list) => any_satisfied(proofs, list@),
    }
}

/// The proofs an `AmountOf` check would aggregate are fungible, so the
/// check is an amount comparison and not a type error.
pub open spec fn amount_check_applies(proofs: Seq<Proof>, resource_def_id: u64) -> bool {
    forall|i: int|
        0 <= i < proofs.len() && #[trigger] proof_matches(proofs[i], resource_def_id)
            ==> proofs[i].resource_type.is_fungible_spec()
}

/// What the evaluator needs of the proof set for this rule: aggregation
/// must not overflow the amount type.
pub open spec fn rule_fits(proofs: Seq<Proof>, rule: HardProofRule) -> bool {
    match rule {
        HardProofRule::AmountOf(amount, h) => match h {
            HardResourceOrNonFungible::Resource(r) => total_max_amount(flat_amounts(proofs, r))
                <= u128::MAX,
            _ => true,
        },
        _ => true,
    }
}

/// Does some held proof cover the reference?
fn check_ref(proofs: &Vec<Proof>, h: &HardResourceOrNonFungible) -> (r: bool)
    requires
        forall|i: int| 0 <= i < proofs@.len() ==> (#[trigger] proofs@[i]).wf(),
    ensures
        r == satisfies_ref(proofs@, *h),
{
    match h {
        HardResourceOrNonFungible::Resource(rid) => {
            let mut i: usize = 0;
            while i < proofs.len()
                invariant
                    i <= proofs@.len(),
                    *h == HardResourceOrNonFungible::Resource(*rid),
                    forall|t: int| 0 <= t < proofs@.len() ==> (#[trigger] proofs@[t]).wf(),
                    forall|t: int| 0 <= t < i ==> !proof_has_resource(#[trigger] proofs@[t], *rid),
                decreases proofs@.len() - i,
            {
                let p = &proofs[i];
                if p.resource_def_id() == *rid && !p.total_locked.is_empty() {
                    proof {
                        assert(proof_has_resource(proofs@[i as int], *rid));
                    }
                    return true;
                }
                i += 1;
            }
            false
        },
        HardResourceOrNonFungible::NonFungible(a) => {
            let mut i: usize = 0;
            while i < proofs.len()
                invariant
                    i <= proofs@.len(),
                    *h == HardResourceOrNonFungible::NonFungible(*a),
                    forall|t: int| 0 <= t < proofs@.len() ==> (#[trigger] proofs@[t]).wf(),
                    forall|t: int|
                        0 <= t < i ==> !proof_has_non_fungible(#[trigger] proofs@[t], *a),
                decreases proofs@.len() - i,
            {
                let p = &proofs[i];
                if p.resource_def_id() == a.resource_def_id {
                    match &p.total_locked {
                        LockedAmountOrIds::Ids(s) => {
                            if s.contains(a.non_fungible_id) {
                                proof {
                                    assert(proof_has_non_fungible(proofs@[i as int], *a));
                                }
                                return true;
                            }
                        },
                        LockedAmountOrIds::Amount(_) => {},
                    }
                }
                i += 1;
            }
            false
        },
        HardResourceOrNonFungible::SoftResourceNotFound => false,
    }
}

/// Evaluates a resolved rule against the caller's proofs: satisfied or not,
/// with no partial credit. Applying an amount check to non-fungible proofs
/// is a hard error, not `false`. Evaluation never changes a proof or a
/// container, so combinator short-circuiting is safe.
pub fn check_proof_rule(rule: &HardProofRule, proofs: &Vec<Proof>) -> (r: Result<bool, ProofError>)
    requires
        forall|i: int| 0 <= i < proofs@.len() ==> (#[trigger] proofs@[i]).wf(),
        rule_fits(proofs@, *rule),
    ensures
        r is Ok <==> (match *rule {
            HardProofRule::AmountOf(amount, h) => match h {
                HardResourceOrNonFungible::Resource(rid) => amount_check_applies(proofs@, rid),
                _ => true,
            },
            _ => true,
        }),
        r matches Ok(b) ==> b == rule_satisfied(proofs@, *rule),
        r matches Err(e) ==> e == ProofError::FungibleOperationNotAllowed,
    {
    match rule {
        HardProofRule::This(h) => Result::Ok(check_ref(proofs, h)),
        HardProofRule::AmountOf(amount, h) => {
            match h {
                HardResourceOrNonFungible::Resource(rid) => {
                    let mut i: usize = 0;
                    while i < proofs.len()
                        invariant
                            i <= proofs@.len(),
                            *rule == HardProofRule::AmountOf(
                                *amount,
                                HardResourceOrNonFungible::Resource(*rid),
                            ),
                            forall|t: int| 0 <= t < proofs@.len() ==> (#[trigger] proofs@[t]).wf(),
                            forall|t: int|
                                0 <= t < i && #[trigger] proof_matches(proofs@[t], *rid)
                                    ==> proofs@[t].resource_type.is_fungible_spec(),
                        decreases proofs@.len() - i,
                    {
                        let p = &proofs[i];
                        if p.resource_def_id() == *rid && !p.is_restricted()
                            && !p.resource_type.is_fungible() {
                            proof {
                                assert(proof_matches(proofs@[i as int], *rid));
                                assert(!proofs@[i as int].resource_type.is_fungible_spec());
                                assert(!amount_check_applies(proofs@, *rid));
                            }
                            return Result::Err(ProofError::FungibleOperationNotAllowed);
                        }
                        i += 1;
                    }
                    let (total, _per) = compute_max_amounts(proofs, *rid);
                    Result::Ok(total >= *amount)
                },
                HardResourceOrNonFungible::NonFungible(a) => Result::Ok(false),
                HardResourceOrNonFungible::SoftResourceNotFound => Result::Ok(false),
            }
        },
        HardProofRule::CountOf(n, list) => {
            let mut cnt: usize = 0;
            let mut k: usize = 0;
            while k < list.len()
                invariant
                    k <= list@.len(),
                    cnt <= k,
                    forall|t: int| 0 <= t < proofs@.len() ==> (#[trigger] proofs@[t]).wf(),
                    cnt as int == count_satisfied(proofs@, list@.take(k as int)),
                decreases list@.len() - k,
            {
                proof {
                    assert(list@.take(k + 1).drop_last() =~= list@.take(k as int));
                    assert(list@.take(k + 1).last() == list@[k as int]);
                }
                if check_ref(proofs, &list[k]) {
                    cnt += 1;
                }
                k += 1;
            }
            proof {
                assert(list@.take(list@.len() as int) =~= list@);
            }
            Result::Ok(cnt >= (*n as usize))
        },
        HardProofRule::AllOf(list) => {
            let mut k: usize = 0;
            while k < list.len()
                invariant
                    k <= list@.len(),
                    *rule == HardProofRule::AllOf(*list),
                    forall|t: int| 0 <= t < proofs@.len() ==> (#[trigger] proofs@[t]).wf(),
                    forall|t: int| 0 <= t < k ==> satisfies_ref(proofs@, #[trigger] list@[t]),
                decreases list@.len() - k,
            {
                if !check_ref(proofs, &list[k]) {
                    proof {
                        assert(!satisfies_ref(proofs@, list@[k as int]));
                        assert(!all_satisfied(proofs@, list@));
                    }
                    return Result::Ok(false);
                }
                k += 1;
            }
            Result::Ok(true)
        },
        HardProofRule::AnyOf(list) => {
            let mut k: usize = 0;
            while k < list.len()
                invariant
                    k <= list@.len(),
                    *rule == HardProofRule::AnyOf(*list),
                    forall|t: int| 0 <= t < proofs@.len() ==> (#[trigger] proofs@[t]).wf(),
                    forall|t: int| 0 <= t < k ==> !satisfies_ref(proofs@, #[trigger] list@[t]),
                decreases list@.len() - k,
            {
                if check_ref(proofs, &list[k]) {
                    proof {
                        assert(satisfies_ref(proofs@, list@[k as int]));
                        assert(any_satisfied(proofs@, list@));
                    }
                    return Result::Ok(true);
                }
                k += 1;
            }
            Result::Ok(false)
        },
    }
}

/// `AnyOf([A, B])` is satisfied exactly when `A` is satisfied or `B` is;
/// `AllOf([A, B])` exactly when both are.
pub proof fn lemma_pair_combinators(
    proofs: Seq<Proof>,
    a: HardResourceOrNonFungible,
    b: HardResourceOrNonFungible,
)
    ensures
        any_satisfied(proofs, seq![a, b]) <==> (satisfies_ref(proofs, a) || satisfies_ref(
            proofs,
            b,
        )),
        all_satisfied(proofs, seq![a, b]) <==> (satisfies_ref(proofs, a) && satisfies_ref(
            proofs,
            b,
        )),
{
    let l = seq![a, b];
    assert(l[0] == a && l[1] == b);
    if satisfies_ref(proofs, a) {
        assert(any_satisfied(proofs, l));
    }
    if satisfies_ref(proofs, b) {
        assert(any_satisfied(proofs, l));
    }
    if all_satisfied(proofs, l) {
        assert(satisfies_ref(proofs, l[0]));
        assert(satisfies_ref(proofs, l[1]));
    }
}

/// The count over `[A, B, C]` is exactly the number of the three that are
/// satisfied, so `CountOf(2, [A, B, C])` holds exactly when at least two
/// of them do.
pub proof fn lemma_count_of_three(
    proofs: Seq<Proof>,
    a: HardResourceOrNonFungible,
    b: HardResourceOrNonFungible,
    c: HardResourceOrNonFungible,
)
    ensures
        count_satisfied(proofs, seq![a, b, c]) == (if satisfies_ref(proofs, a) {
            1int
        } else {
            0int
        }) + (if satisfies_ref(proofs, b) {
            1int
        } else {
            0int
        }) + (if satisfies_ref(proofs, c) {
            1int
        } else {
            0int
        }),
{
    reveal_with_fuel(count_satisfied, 4);
    let l = seq![a, b, c];
    assert(l.drop_last() =~= seq![a, b]);
    assert(seq![a, b].drop_last() =~= seq![a]);
    assert(seq![a].drop_last() =~= Seq::<HardResourceOrNonFungible>::empty());
    assert(l.last() == c && seq![a, b].last() == b && seq![a].last() == a);
}


/// The operand is a literal, not a path.
pub open spec fn soft_ref_static(s: SoftResourceOrNonFungible) -> bool {
    !(s is Dynamic)
}

/// The resolved form of a literal operand; a path resolves to
/// `SoftResourceNotFound` until the state-access layer supplies its value.
pub open spec fn hard_of_ref(s: SoftResourceOrNonFungible) -> HardResourceOrNonFungible {
    match s {
        SoftResourceOrNonFungible::StaticNonFungible(a) => HardResourceOrNonFungible::NonFungible(
            a,
        ),
        SoftResourceOrNonFungible::StaticResource(r) => HardResourceOrNonFungible::Resource(r),
        SoftResourceOrNonFungible::Dynamic(_) => HardResourceOrNonFungible::SoftResourceNotFound,
    }
}

/// Every entry is a literal.
pub open spec fn refs_static(entries: Seq<SoftResourceOrNonFungible>) -> bool {
    forall|k: int| 0 <= k < entries.len() ==> soft_ref_static(#[trigger] entries[k])
}

/// The resolved form of a list of literal operands, entry for entry.
pub open spec fn hard_of_refs(entries: Seq<SoftResourceOrNonFungible>) -> Seq<
    HardResourceOrNonFungible,
> {
    entries.map_values(|s: SoftResourceOrNonFungible| hard_of_ref(s))
}

/// The list's static resolution outcome: the resolved entries when every
/// entry is a literal, and nothing otherwise.
pub open spec fn list_resolves_statically_to(
    l: SoftResourceOrNonFungibleList,
    r: Option<Seq<HardResourceOrNonFungible>>,
) -> bool {
    match l {
        SoftResourceOrNonFungibleList::Static(entries) => if refs_static(entries@) {
            r == Option::Some(hard_of_refs(entries@))
        } else {
            r is None
        },
        SoftResourceOrNonFungibleList::Dynamic(_) => r is None,
    }
}

/// `r` is what resolving `rule` without any state access must yield: the
/// resolved rule when every operand is a literal, and nothing otherwise.
pub open spec fn resolves_statically_to(rule: ProofRule, r: Option<HardProofRule>) -> bool {
    match rule {
        ProofRule::This(s) => if soft_ref_static(s) {
            r == Option::Some(HardProofRule::This(hard_of_ref(s)))
        } else {
            r is None
        },
        ProofRule::AmountOf(a, sr) => match sr {
            SoftResource::Static(rid) => r == Option::Some(
                HardProofRule::AmountOf(a, HardResourceOrNonFungible::Resource(rid)),
            ),
            SoftResource::Dynamic(_) => r is None,
        },
        ProofRule::CountOf(n, l) => match r {
            Option::Some(HardProofRule::CountOf(m, v)) => m == n && list_resolves_statically_to(
                l,
                Option::Some(v@),
            ),
            Option::None => list_resolves_statically_to(l, Option::None),
            _ => false,
        },
        ProofRule::AllOf(l) => match r {
            Option::Some(HardProofRule::AllOf(v)) => list_resolves_statically_to(
                l,
                Option::Some(v@),
            ),
            Option::None => list_resolves_statically_to(l, Option::None),
            _ => false,
        },
        ProofRule::AnyOf(l) => match r {
            Option::Some(HardProofRule::AnyOf(v)) => list_resolves_statically_to(
                l,
                Option::Some(v@),
            ),
            Option::None => list_resolves_statically_to(l, Option::None),
            _ => false,
        },
    }
}

fn resolve_static_ref(s: &SoftResourceOrNonFungible) -> (r: Option<HardResourceOrNonFungible>)
    ensures
        match r {
            Option::Some(h) => soft_ref_static(*s) && h == hard_of_ref(*s),
            Option::None => !soft_ref_static(*s),
        },
{
    match s {
        SoftResourceOrNonFungible::StaticNonFungible(a) => Option::Some(
            HardResourceOrNonFungible::NonFungible(*a),
        ),
        SoftResourceOrNonFungible::StaticResource(rid) => Option::Some(
            HardResourceOrNonFungible::Resource(*rid),
        ),
        SoftResourceOrNonFungible::Dynamic(_) => Option::None,
    }
}

fn resolve_static_list(l: &SoftResourceOrNonFungibleList) -> (r: Option<
    Vec<HardResourceOrNonFungible>,
>)
    ensures
        match r {
            Option::Some(v) => list_resolves_statically_to(*l, Option::Some(v@)),
            Option::None => list_resolves_statically_to(*l, Option::None),
        },
{
    match l {
        SoftResourceOrNonFungibleList::Static(entries) => {
            let mut out: Vec<HardResourceOrNonFungible> = Vec::new();
            let mut k: usize = 0;
            while k < entries.len()
                invariant
                    k <= entries@.len(),
                    *l == SoftResourceOrNonFungibleList::Static(*entries),
                    forall|t: int| 0 <= t < k ==> soft_ref_static(#[trigger] entries@[t]),
                    out@ == hard_of_refs(entries@.take(k as int)),
                decreases entries@.len() - k,
            {
                match resolve_static_ref(&entries[k]) {
                    Option::Some(h) => {
                        out.push(h);
                        proof {
                            assert(out@ =~= hard_of_refs(entries@.take(k + 1)));
                        }
                    },
                    Option::None => {
                        proof {
                            assert(!soft_ref_static(entries@[k as int]));
                            assert(!refs_static(entries@));
                        }
                        return Option::None;
                    },
                }
                k += 1;
            }
            proof {
                assert(entries@.take(entries@.len() as int) =~= entries@);
                assert(out@ == hard_of_refs(entries@));
            }
            Option::Some(out)
        },
        SoftResourceOrNonFungibleList::Dynamic(_) => Option::None,
    }
}

/// Resolves a rule all of whose operands are literal addresses. A rule
/// with a dynamic operand needs the state-access layer to fetch and decode
/// the value at its path, which is outside this core; such a rule is not
/// resolved here.
pub fn resolve_static_rule(rule: &ProofRule) -> (r: Option<HardProofRule>)
    ensures
        resolves_statically_to(*rule, r),
{
    match rule {
        ProofRule::This(s) => match resolve_static_ref(s) {
            Option::Some(h) => Option::Some(HardProofRule::This(h)),
            Option::None => Option::None,
        },
        ProofRule::AmountOf(a, sr) => match sr {
            SoftResource::Static(rid) => Option::Some(
                HardProofRule::AmountOf(*a, HardResourceOrNonFungible::Resource(*rid)),
            ),
            SoftResource::Dynamic(_) => Option::None,
        },
        ProofRule::CountOf(n, l) => match resolve_static_list(l) {
            Option::Some(v) => Option::Some(HardProofRule::CountOf(*n, v)),
            Option::None => Option::None,
        },
        ProofRule::AllOf(l) => match resolve_static_list(l) {
            Option::Some(v) => Option::Some(HardProofRule::AllOf(v)),
            Option::None => Option::None,
        },
        ProofRule::AnyOf(l) => match resolve_static_list(l) {
            Option::Some(v) => Option::Some(HardProofRule::AnyOf(v)),
            Option::None => Option::None,
        },
    }
}

} // verus!
