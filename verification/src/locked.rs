//! Resource identities and the tagged union of a locked fungible amount or a
//! locked non-fungible id set.

use vstd::prelude::*;
use crate::ids::IdSet;

verus! {

/// Opaque address identifying a resource definition.
pub type ResourceDefId = u64;

/// Unique id of one non-fungible unit within its resource.
pub type NonFungibleId = u64;

/// Address of one specific non-fungible unit: a resource plus an id.
#[derive(Debug, Clone, Copy, PartialEq, Eq, Structural)]
pub struct NonFungibleAddress {
    pub resource_def_id: ResourceDefId,
    pub non_fungible_id: NonFungibleId,
}

/// How a resource's quantity is tracked: as a divisible amount, or as a set
/// of discrete unique ids. Fixed for the resource's lifetime.
#[derive(Debug, Clone, Copy, PartialEq, Eq, Structural)]
pub enum ResourceType {
    Fungible { divisibility: u8 },
    NonFungible,
}

impl ResourceType {
    pub open spec fn is_fungible_spec(self) -> bool {
        self is Fungible
    }

    pub fn is_fungible(&self) -> (r: bool)
        ensures
            r == self.is_fungible_spec(),
    {
        match self {
            ResourceType::Fungible { .. } => true,
            ResourceType::NonFungible => false,
        }
    }
}

/// A locked quantity: a fungible amount or a set of non-fungible ids.
/// A value is never mixed-type; amount operations on an id set (and the
/// reverse) are rejected by the functions that take one.
#[derive(Debug, Clone)]
pub enum LockedAmountOrIds {
    Amount(u128),
    Ids(IdSet),
}

impl LockedAmountOrIds {
    pub open spec fn is_amount(self) -> bool {
        self is Amount
    }

    /// Well-formed: a held id set has no duplicates.
    pub open spec fn inv(self) -> bool {
        match self {
            LockedAmountOrIds::Amount(_) => true,
            LockedAmountOrIds::Ids(s) => s.inv(),
        }
    }

    /// The quantity as an amount; for an id set, the number of ids.
    pub open spec fn amount_spec(self) -> u128 {
        match self {
            LockedAmountOrIds::Amount(a) => a,
            LockedAmountOrIds::Ids(s) => s.set().len() as u128,
        }
    }

    /// The ids held, as a sequence; empty for an amount.
    pub open spec fn ids_seq(self) -> Seq<u64> {
        match self {
            LockedAmountOrIds::Amount(_) => Seq::empty(),
            LockedAmountOrIds::Ids(s) => s.ids@,
        }
    }

    /// The ids held, as a set; empty for an amount.
    pub open spec fn ids_set(self) -> Set<u64> {
        self.ids_seq().to_set()
    }

    /// Empty means amount zero, or no ids.
    pub open spec fn is_empty_spec(self) -> bool {
        match self {
            LockedAmountOrIds::Amount(a) => a == 0,
            LockedAmountOrIds::Ids(s) => s.set().is_empty(),
        }
    }

    pub fn is_empty(&self) -> (r: bool)
        requires
            self.inv(),
        ensures
            r == self.is_empty_spec(),
    {
        match self {
            LockedAmountOrIds::Amount(a) => *a == 0,
            LockedAmountOrIds::Ids(s) => s.is_empty(),
        }
    }

    /// The locked quantity as an amount; an id set counts its ids.
    pub fn amount(&self) -> (r: u128)
        requires
            self.inv(),
        ensures
            r == self.amount_spec(),
    {
        match self {
            LockedAmountOrIds::Amount(a) => *a,
            LockedAmountOrIds::Ids(s) => s.len() as u128,
        }
    }

    /// The locked ids; `None` if this value holds an amount.
    pub fn ids(&self) -> (r: Option<IdSet>)
        ensures
            match r {
                Option::Some(s) => self is Ids && s.ids@ == self.ids_seq(),
                Option::None => self is Amount,
            },
    {
        match self {
            LockedAmountOrIds::Amount(_) => Option::None,
            LockedAmountOrIds::Ids(s) => Option::Some(s.copied()),
        }
    }

    /// A structural copy with the same contents.
    pub fn copied(&self) -> (r: LockedAmountOrIds)
        ensures
            same_locked(r, *self),
    {
        match self {
            LockedAmountOrIds::Amount(a) => LockedAmountOrIds::Amount(*a),
            LockedAmountOrIds::Ids(s) => LockedAmountOrIds::Ids(s.copied()),
        }
    }
}

/// The two values hold the same contents: the same variant, the same amount,
/// and the same ids in the same order.
pub open spec fn same_locked(a: LockedAmountOrIds, b: LockedAmountOrIds) -> bool {
    &&& a.is_amount() == b.is_amount()
    &&& a.amount_spec() == b.amount_spec()
    &&& a.ids_seq() == b.ids_seq()
}

} // verus!
