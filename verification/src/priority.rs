//! The order in which labels are worth expanding: a label is greater the
//! earlier its costs come in lexicographic order, so that the greatest label
//! is the one to expand first. Labels with the same costs are equal, whatever
//! else they hold, and so are bags that hold the same cost vectors.

use crate::bag::{Bag, Label, NodeId};
use crate::paths::costs_of;
use crate::order::{compare_values, rank, Rank};
use std::cmp::Ordering;
use vstd::prelude::*;
use vstd::std_specs::cmp::{PartialEqSpecImpl, PartialOrdSpecImpl};

verus! {

/// Where a label with the costs `a` stands to one with the costs `b`: it is
/// greater where `a` comes first.
pub open spec fn precedence(a: Seq<u64>, b: Seq<u64>) -> Ordering {
    match rank(a, b) {
        Rank::Before => Ordering::Greater,
        Rank::Same => Ordering::Equal,
        Rank::After => Ordering::Less,
    }
}

impl<T> PartialEq for Label<T> {
    fn eq(&self, other: &Self) -> (r: bool) {
        match compare_values(&self.values, &other.values) {
            Rank::Same => true,
            _ => false,
        }
    }
}

impl<T> PartialEqSpecImpl for Label<T> {
    open spec fn obeys_eq_spec() -> bool {
        true
    }

    open spec fn eq_spec(&self, other: &Self) -> bool {
        self.values@ == other.values@
    }
}

impl<T> Eq for Label<T> {

}

impl PartialEq for Bag<NodeId> {
    fn eq(&self, other: &Self) -> (r: bool) {
        self.same_costs(other)
    }
}

impl PartialEqSpecImpl for Bag<NodeId> {
    open spec fn obeys_eq_spec() -> bool {
        true
    }

    open spec fn eq_spec(&self, other: &Self) -> bool {
        costs_of(self@) == costs_of(other@)
    }
}

impl Eq for Bag<NodeId> {

}

impl<T> PartialOrd for Label<T> {
    fn partial_cmp(&self, other: &Self) -> (r: Option<Ordering>) {
        Some(self.cmp(other))
    }
}

impl<T> PartialOrdSpecImpl for Label<T> {
    open spec fn obeys_partial_cmp_spec() -> bool {
        true
    }

    open spec fn partial_cmp_spec(&self, other: &Self) -> Option<Ordering> {
        Some(precedence(self.values@, other.values@))
    }
}

impl<T> Label<T> {
    /// Compares two labels by their costs: the label whose costs come first
    /// in lexicographic order is the greater one.
    pub fn cmp(&self, other: &Self) -> (r: Ordering)
        ensures
            r == precedence(self.values@, other.values@),
    {
        match compare_values(&self.values, &other.values) {
            Rank::Before => Ordering::Greater,
            Rank::Same => Ordering::Equal,
            Rank::After => Ordering::Less,
        }
    }
}

} // verus!
