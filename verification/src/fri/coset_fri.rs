use crate::fields::element::FieldElement;
use crate::fields::modular::{field_mul, field_pow};
use crate::fri::fri_commit::{next_domain, next_fri_domain};
use crate::polynomial::model::reduced;
use crate::polynomial::ops::values;
use vstd::prelude::*;

verus! {

/// A coset `offset * <omega>` of a multiplicative subgroup, used as the
/// first evaluation domain.
#[derive(Clone, Copy, Debug)]
pub struct CosetFri<const M: u64> {
    /// The coset offset.
    pub offset: FieldElement<M>,
    /// The generator of the subgroup.
    pub omega: FieldElement<M>,
    /// The number of points of the first domain.
    pub domain_size: usize,
}

impl<const M: u64> CosetFri<M> {
    /// The coset with the given offset, generator and size.
    pub fn new(offset: FieldElement<M>, omega: FieldElement<M>, domain_size: usize) -> (r: Self)
        ensures
            r.offset == offset,
            r.omega == omega,
            r.domain_size == domain_size,
    {
        Self { offset, omega, domain_size }
    }

    /// The points `offset * omega^i` for `i` below `domain_size`.
    pub fn generate_coset_domain(&self) -> (r: Vec<FieldElement<M>>)
        requires
            self.offset.wf(),
            self.omega.wf(),
        ensures
            r@.len() == self.domain_size,
            forall|i: int|
                0 <= i < self.domain_size ==> (#[trigger] r@[i])@ == field_mul(
                    self.offset@,
                    field_pow(self.omega@, i as nat, M as int),
                    M as int,
                ),
            reduced(values(r@), M as int),
    {
        let mut out: Vec<FieldElement<M>> = Vec::new();
        let mut i: usize = 0;
        while i < self.domain_size
            invariant
                self.offset.wf(),
                self.omega.wf(),
                i <= self.domain_size,
                out@.len() == i,
                forall|j: int|
                    0 <= j < i ==> (#[trigger] out@[j])@ == field_mul(
                        self.offset@,
                        field_pow(self.omega@, j as nat, M as int),
                        M as int,
                    ),
                forall|j: int| 0 <= j < i ==> (#[trigger] out@[j]).wf(),
            decreases self.domain_size - i,
        {
            out.push(self.offset * self.omega.pow(i as u64));
            i = i + 1;
        }
        assert(reduced(values(out@), M as int)) by {
            assert forall|j: int| 0 <= j < out@.len() implies 0 <= #[trigger] values(out@)[j]
                < M by {
                assert(out@[j].wf());
            }
        }
        out
    }

    /// The next, half as long domain: the squares of the first half of
    /// `current_domain`.
    pub fn next_coset_domain(&self, current_domain: &[FieldElement<M>]) -> (r: Vec<
        FieldElement<M>,
    >)
        requires
            reduced(values(current_domain@), M as int),
        ensures
            values(r@) == next_domain(values(current_domain@), M as int),
            reduced(values(r@), M as int),
    {
        next_fri_domain(current_domain)
    }
}

} // verus!
