//! `==` and `<` on terms.

use super::term::{FormulaTerm, Term, VarId};
use std::cmp::Ordering;
use vstd::prelude::*;
use vstd::std_specs::cmp::{PartialEqSpecImpl, PartialOrdSpecImpl};

verus! {

/// How two terms compare in the order of terms.
pub open spec fn term_ordering(a: Term, b: Term) -> Ordering {
    if a.lt(b) {
        Ordering::Less
    } else if a == b {
        Ordering::Equal
    } else {
        Ordering::Greater
    }
}

impl<Id: VarId> PartialEq for FormulaTerm<Id> {
    fn eq(&self, other: &Self) -> (r: bool) {
        self.same_term(other)
    }
}

impl<Id: VarId> PartialEqSpecImpl for FormulaTerm<Id> {
    open spec fn obeys_eq_spec() -> bool {
        true
    }

    open spec fn eq_spec(&self, other: &Self) -> bool {
        self@ == other@
    }
}

impl<Id: VarId> Eq for FormulaTerm<Id> {

}

impl<Id: VarId> PartialOrd for FormulaTerm<Id> {
    fn partial_cmp(&self, other: &Self) -> (r: Option<Ordering>) {
        if self.precedes(other) {
            Some(Ordering::Less)
        } else if self.same_term(other) {
            Some(Ordering::Equal)
        } else {
            Some(Ordering::Greater)
        }
    }
}

impl<Id: VarId> PartialOrdSpecImpl for FormulaTerm<Id> {
    open spec fn obeys_partial_cmp_spec() -> bool {
        true
    }

    open spec fn partial_cmp_spec(&self, other: &Self) -> Option<Ordering> {
        Some(term_ordering(self@, other@))
    }
}

} // verus!
