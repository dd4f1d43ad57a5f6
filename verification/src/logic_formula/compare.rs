//! `==` on cubes and formulas, and copies of both.

use super::cube::{consistent, normal, sorted, DNFCube};
use super::form::{covered, form_normal, DNFForm};
use super::term::{FormulaTerm, VarId};
use vstd::prelude::*;
use vstd::std_specs::cmp::PartialEqSpecImpl;

verus! {

impl<Id: VarId> DNFCube<Id> {
    /// Is the cube in normal form: sorted, without a term twice, and
    /// without a term together with its negation?
    pub fn is_normal(&self) -> (r: bool)
        ensures
            r == normal(self@),
    {
        let n = self.terms.len();
        let mut i: usize = 0;
        while i < n
            invariant
                n == self@.len(),
                n == self.terms@.len(),
                i <= n,
                forall|a: int, b: int|
                    0 <= a < i && a < b < n ==> (#[trigger] self@[a]).lt(#[trigger] self@[b])
                        && !self@[a].negates(self@[b]),
            decreases n - i,
        {
            let mut j: usize = i + 1;
            while j < n
                invariant
                    n == self@.len(),
                    n == self.terms@.len(),
                    i < n,
                    i < j <= n,
                    forall|a: int, b: int|
                        0 <= a < i && a < b < n ==> (#[trigger] self@[a]).lt(#[trigger] self@[b])
                            && !self@[a].negates(self@[b]),
                    forall|b: int|
                        i < b < j ==> self@[i as int].lt(#[trigger] self@[b]) && !self@[i as int].negates(
                            self@[b],
                        ),
                decreases n - j,
            {
                assert(self.terms@[i as int]@ == self@[i as int]);
                assert(self.terms@[j as int]@ == self@[j as int]);
                if !self.terms[i].precedes(&self.terms[j]) {
                    assert(!sorted(self@));
                    return false;
                }
                if self.terms[i].neg_eq(&self.terms[j]) {
                    assert(!consistent(self@));
                    return false;
                }
                j += 1;
            }
            i += 1;
        }
        proof {
            assert forall|a: int, b: int| 0 <= a < n && 0 <= b < n implies !(#[trigger] self@[a]).negates(
                #[trigger] self@[b],
            ) by {
                if a < b {
                    assert(!self@[a].negates(self@[b]));
                } else if b < a {
                    assert(!self@[b].negates(self@[a]));
                    super::term::lemma_negates_symmetric(self@[a], self@[b]);
                } else {
                    super::term::lemma_negates_symmetric(self@[a], self@[b]);
                }
            }
        }
        true
    }
}

impl<Id: VarId> DNFForm<Id> {
    /// Is every cube of the formula in normal form?
    pub fn is_normal(&self) -> (r: bool)
        ensures
            r == self.wf(),
    {
        let mut i: usize = 0;
        while i < self.cubes.len()
            invariant
                i <= self.cubes@.len(),
                forall|k: int| 0 <= k < i ==> normal(#[trigger] self@[k]),
            decreases self.cubes@.len() - i,
        {
            assert(self.cubes@[i as int]@ == self@[i as int]);
            if !self.cubes[i].is_normal() {
                return false;
            }
            i += 1;
        }
        true
    }
}

impl<Id: VarId> Clone for FormulaTerm<Id> {
    fn clone(&self) -> (r: Self)
        ensures
            r@ == self@,
    {
        self.dup()
    }
}

impl<Id: VarId> Clone for DNFCube<Id> {
    fn clone(&self) -> (r: Self)
        ensures
            r@ == self@,
    {
        self.dup()
    }
}

impl<Id: VarId> Clone for DNFForm<Id> {
    fn clone(&self) -> (r: Self)
        ensures
            r@ == self@,
    {
        self.dup()
    }
}

impl<Id: VarId> PartialEq for DNFCube<Id> {
    /// Cubes are equal if they hold the same terms in the same order.
    fn eq(&self, other: &Self) -> (r: bool) {
        self.same_terms(other)
    }
}

impl<Id: VarId> PartialEqSpecImpl for DNFCube<Id> {
    open spec fn obeys_eq_spec() -> bool {
        true
    }

    open spec fn eq_spec(&self, other: &Self) -> bool {
        self@ == other@
    }
}

impl<Id: VarId> Eq for DNFCube<Id> {

}

impl<Id: VarId> PartialEq for DNFForm<Id> {
    /// Formulas in normal form are equal if each covers the other one cube
    /// by cube.  A formula with a cube out of normal form equals nothing.
    fn eq(&self, other: &Self) -> (r: bool) {
        self.is_normal() && other.is_normal() && self.is_subformula_of(other)
            && other.is_subformula_of(self)
    }
}

impl<Id: VarId> PartialEqSpecImpl for DNFForm<Id> {
    open spec fn obeys_eq_spec() -> bool {
        true
    }

    open spec fn eq_spec(&self, other: &Self) -> bool {
        form_normal(self@) && form_normal(other@) && covered(self@, other@) && covered(
            other@,
            self@,
        )
    }
}

} // verus!
