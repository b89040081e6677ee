use vstd::prelude::*;

verus! {

/// A coordinate vector with a rank fixed at compile time.
#[derive(Debug, Clone, PartialEq, Eq)]
pub struct Indices<const R: usize> {
    pub values: [usize; R],
}

/// A coordinate vector with a rank chosen at run time.
#[derive(Debug, PartialEq, Eq)]
pub struct IndicesDyn {
    pub values: Vec<usize>,
}

impl<const R: usize> Indices<R> {
    pub fn new(values: [usize; R]) -> (r: Indices<R>)
        ensures
            r.values@ == values@,
    {
        Indices { values }
    }

    /// The origin: every coordinate zero.
    pub fn zero() -> (r: Indices<R>)
        ensures
            r.values@.len() == R,
            forall|i: int| 0 <= i < R ==> r.values@[i] == 0,
    {
        Indices { values: [0; R] }
    }

    /// Rank of the coordinate vector.
    pub fn rank(&self) -> (r: usize)
        ensures
            r == R,
    {
        R
    }

    /// Convert to a dynamic-rank coordinate vector with the same values.
    pub fn to_dyn(&self) -> (r: IndicesDyn)
        ensures
            r.values@ == self.values@,
    {
        let mut v: Vec<usize> = Vec::new();
        let mut i: usize = 0;
        while i < R
            invariant
                0 <= i <= R,
                self.values@.len() == R,
                v@ =~= self.values@.take(i as int),
            decreases R - i,
        {
            v.push(self.values[i]);
            assert(v@ =~= self.values@.take(i + 1));
            i = i + 1;
        }
        proof {
            assert(self.values@.take(self.values@.len() as int) =~= self.values@);
        }
        IndicesDyn { values: v }
    }
}

impl IndicesDyn {
    pub fn new(values: Vec<usize>) -> (r: IndicesDyn)
        ensures
            r.values@ == values@,
    {
        IndicesDyn { values }
    }

    /// The origin of the given rank: every coordinate zero.
    pub fn zero(rank: usize) -> (r: IndicesDyn)
        ensures
            r.values@.len() == rank,
            forall|i: int| 0 <= i < rank ==> r.values@[i] == 0,
    {
        let mut v: Vec<usize> = Vec::new();
        let mut i: usize = 0;
        while i < rank
            invariant
                0 <= i <= rank,
                v@.len() == i,
                forall|j: int| 0 <= j < i ==> v@[j] == 0,
            decreases rank - i,
        {
            v.push(0);
            i = i + 1;
        }
        IndicesDyn { values: v }
    }

    /// Rank of the coordinate vector.
    pub fn rank(&self) -> (r: usize)
        ensures
            r == self.values@.len(),
    {
        self.values.len()
    }
}

} // verus!
