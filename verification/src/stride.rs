use vstd::prelude::*;
use crate::radix::seq_prod;
use crate::tuple::{leaf_prods_ok, lemma_leaf_prods_ok_take};

verus! {

/// Per-dimension memory multipliers with a rank fixed at compile time.
#[derive(Debug, PartialEq, Eq)]
pub struct Stride<const R: usize> {
    pub strides: [usize; R],
}

/// Per-dimension memory multipliers with a rank chosen at run time.
#[derive(Debug, PartialEq, Eq)]
pub struct StrideDyn {
    pub strides: Vec<usize>,
}

impl<const R: usize> Stride<R> {
    /// Create a new static-rank stride.
    pub fn new(strides: [usize; R]) -> (r: Stride<R>)
        ensures
            r.strides@ == strides@,
    {
        Stride { strides }
    }

    /// The stride values as a slice.
    pub fn as_slice(&self) -> (r: &[usize])
        ensures
            r@ == self.strides@,
    {
        &self.strides
    }

    /// Rank of the stride.
    pub fn rank(&self) -> (r: usize)
        ensures
            r == R,
    {
        R
    }

    /// Product of all stride values.
    pub fn size(&self) -> (r: usize)
        requires
            leaf_prods_ok(self.strides@),
        ensures
            r == seq_prod(self.strides@),
    {
        let mut prod: usize = 1;
        let mut i: usize = 0;
        while i < R
            invariant
                0 <= i <= R,
                self.strides@.len() == R,
                leaf_prods_ok(self.strides@),
                prod == seq_prod(self.strides@.take(i as int)),
            decreases R - i,
        {
            proof {
                crate::radix::lemma_seq_prod_take_succ(self.strides@, i as int);
                lemma_leaf_prods_ok_take(self.strides@, i + 1);
                crate::radix::lemma_seq_prod_nonneg(self.strides@.take(i as int));
            }
            prod = prod * self.strides[i];
            i = i + 1;
        }
        proof {
            assert(self.strides@.take(self.strides@.len() as int) =~= self.strides@);
        }
        prod
    }

    /// Convert to a dynamic-rank stride with the same values.
    pub fn to_dynamic(&self) -> (r: StrideDyn)
        ensures
            r.strides@ == self.strides@,
    {
        let mut v: Vec<usize> = Vec::new();
        let mut i: usize = 0;
        while i < R
            invariant
                0 <= i <= R,
                self.strides@.len() == R,
                v@ =~= self.strides@.take(i as int),
            decreases R - i,
        {
            v.push(self.strides[i]);
            assert(v@ =~= self.strides@.take(i + 1));
            i = i + 1;
        }
        proof {
            assert(self.strides@.take(self.strides@.len() as int) =~= self.strides@);
        }
        StrideDyn { strides: v }
    }
}

impl StrideDyn {
    /// Create a new dynamic-rank stride.
    pub fn new(strides: Vec<usize>) -> (r: StrideDyn)
        ensures
            r.strides@ == strides@,
    {
        StrideDyn { strides }
    }

    /// Rank of the stride.
    pub fn rank(&self) -> (r: usize)
        ensures
            r == self.strides@.len(),
    {
        self.strides.len()
    }

    /// Product of all stride values.
    pub fn size(&self) -> (r: usize)
        requires
            leaf_prods_ok(self.strides@),
        ensures
            r == seq_prod(self.strides@),
    {
        let mut prod: usize = 1;
        let mut i: usize = 0;
        while i < self.strides.len()
            invariant
                0 <= i <= self.strides@.len(),
                leaf_prods_ok(self.strides@),
                prod == seq_prod(self.strides@.take(i as int)),
            decreases self.strides@.len() - i,
        {
            proof {
                crate::radix::lemma_seq_prod_take_succ(self.strides@, i as int);
                lemma_leaf_prods_ok_take(self.strides@, i + 1);
                crate::radix::lemma_seq_prod_nonneg(self.strides@.take(i as int));
            }
            prod = prod * self.strides[i];
            i = i + 1;
        }
        proof {
            assert(self.strides@.take(self.strides@.len() as int) =~= self.strides@);
        }
        prod
    }
}

impl Clone for StrideDyn {
    /// A clone has the same values.
    fn clone(&self) -> (r: StrideDyn)
        ensures
            r.strides@ == self.strides@,
    {
        let mut v: Vec<usize> = Vec::new();
        let mut i: usize = 0;
        while i < self.strides.len()
            invariant
                0 <= i <= self.strides@.len(),
                v@ =~= self.strides@.take(i as int),
            decreases self.strides@.len() - i,
        {
            v.push(self.strides[i]);
            assert(v@ =~= self.strides@.take(i + 1));
            i = i + 1;
        }
        proof {
            assert(self.strides@.take(self.strides@.len() as int) =~= self.strides@);
        }
        StrideDyn { strides: v }
    }
}

} // verus!
