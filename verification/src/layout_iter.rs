//! Lazy enumeration of grid positions in row-major (rightmost-fastest)
//! lexicographic order, by a ripple counter.  Each dimension advances
//! in multiples of its step, below an exclusive limit that the step
//! divides exactly.

use vstd::prelude::*;
use vstd::arithmetic::div_mod::{lemma_fundamental_div_mod, lemma_mod_bound,
    lemma_div_multiples_vanish, lemma_small_mod};
use crate::radix::{seq_prod, encode, decode, in_range, lemma_encode_zero, lemma_encode_all_max,
    lemma_encode_bound, lemma_encode_decode, lemma_encode_ripple, lemma_seq_prod_pos};

verus! {

/// Enumerates the points `(c_0, ..., c_{n-1})` with `c_d` a multiple of
/// `step[d]` below `limit[d]`, rightmost position fastest.
#[derive(Debug)]
pub struct LayoutIterator {
    pub limit: Vec<usize>,
    pub step: Vec<usize>,
    pub current: Vec<usize>,
    pub done: bool,
}

impl LayoutIterator {
    /// Number of steps along each dimension.
    pub open spec fn grid(self) -> Seq<usize> {
        Seq::new(self.limit@.len(), |d: int| (self.limit@[d] as int / self.step@[d] as int) as usize)
    }

    /// The grid position encoded by the current point.
    pub open spec fn digits(self) -> Seq<int> {
        Seq::new(self.current@.len(), |d: int| self.current@[d] as int / self.step@[d] as int)
    }

    /// Number of points the enumeration holds in total.
    pub open spec fn total(self) -> int {
        seq_prod(self.grid())
    }

    /// How many points have been yielded so far.
    pub open spec fn iter_index(self) -> int {
        if self.done {
            self.total()
        } else {
            encode(self.digits(), self.grid())
        }
    }

    pub open spec fn wf(self) -> bool {
        &&& self.step@.len() == self.limit@.len()
        &&& self.current@.len() == self.limit@.len()
        &&& forall|d: int|
            0 <= d < self.limit@.len() ==> (1 <= #[trigger] self.step@[d]
                && self.limit@[d] as int % self.step@[d] as int == 0
                && self.current@[d] as int % self.step@[d] as int == 0)
        &&& !self.done ==> in_range(self.digits(), self.grid())
    }

    /// A fresh unit-step counter over the given extents, starting at
    /// the origin; it is exhausted from the start when an extent is
    /// zero.
    pub fn new(shape: Vec<usize>) -> (r: LayoutIterator)
        ensures
            r.wf(),
            r.limit@ == shape@,
            r.step@.len() == shape@.len(),
            forall|d: int| 0 <= d < shape@.len() ==> #[trigger] r.step@[d] == 1,
            r.grid() =~= shape@,
            r.iter_index() == if r.total() > 0 {
                0
            } else {
                r.total()
            },
    {
        let ndim = shape.len();
        let mut step: Vec<usize> = Vec::new();
        let mut current: Vec<usize> = Vec::new();
        let mut any_zero = false;
        let mut i: usize = 0;
        while i < ndim
            invariant
                shape@.len() == ndim,
                0 <= i <= ndim,
                step@.len() == i,
                current@.len() == i,
                forall|d: int| 0 <= d < i ==> #[trigger] step@[d] == 1,
                forall|d: int| 0 <= d < i ==> #[trigger] current@[d] == 0,
                any_zero == exists|d: int| 0 <= d < i && #[trigger] shape@[d] == 0,
            decreases ndim - i,
        {
            step.push(1);
            current.push(0);
            if shape[i] == 0 {
                any_zero = true;
            }
            i = i + 1;
        }
        let r = LayoutIterator { limit: shape, step, current, done: any_zero };
        proof {
            assert forall|d: int| 0 <= d < r.limit@.len() implies (1 <= #[trigger] r.step@[d]
                && r.limit@[d] as int % r.step@[d] as int == 0
                && r.current@[d] as int % r.step@[d] as int == 0) by {
                lemma_small_mod(0, 1);
                lemma_fundamental_div_mod(r.limit@[d] as int, 1);
                lemma_mod_bound(r.limit@[d] as int, 1);
            }
            assert(r.grid() =~= r.limit@) by {
                assert forall|d: int| 0 <= d < r.limit@.len() implies
                    #[trigger] r.grid()[d] == r.limit@[d] by {
                    lemma_fundamental_div_mod(r.limit@[d] as int, 1);
                    lemma_mod_bound(r.limit@[d] as int, 1);
                }
            }
            if !r.done {
                assert(in_range(r.digits(), r.grid())) by {
                    assert forall|d: int| 0 <= d < r.grid().len() implies
                        (0 <= #[trigger] r.digits()[d] && r.digits()[d] < r.grid()[d]) by {
                        lemma_fundamental_div_mod(0, 1);
                        lemma_small_mod(0, 1);
                        assert(r.current@[d] == 0);
                        assert(r.digits()[d] == 0);
                        assert(r.limit@[d] != 0);
                    }
                }
                lemma_encode_zero(r.digits(), r.grid());
                lemma_seq_prod_pos(r.grid());
            } else {
                let ghost w = choose|d: int| 0 <= d < r.limit@.len() && r.limit@[d] == 0;
                assert(r.grid()[w] == 0) by {
                    lemma_fundamental_div_mod(0, 1);
                    lemma_mod_bound(0, 1);
                }
                crate::radix::lemma_seq_prod_nonneg(r.grid());
                if r.total() >= 1 {
                    crate::radix::lemma_seq_prod_pos_converse(r.grid());
                }
            }
        }
        r
    }

    /// Yield the next point of the enumeration, or nothing once every
    /// point has been produced.
    pub fn next(&mut self) -> (r: Option<Vec<usize>>)
        requires
            old(self).wf(),
        ensures
            final(self).wf(),
            final(self).limit@ == old(self).limit@,
            final(self).step@ == old(self).step@,
            old(self).done ==> (r is None && *final(self) == *old(self)),
            !old(self).done ==> {
                &&& r is Some
                &&& (r->0)@ == old(self).current@
                &&& forall|d: int|
                    0 <= d < old(self).current@.len()
                        ==> (#[trigger] old(self).current@[d]) as int == old(self).step@[d]
                            * decode(old(self).iter_index(), old(self).grid())[d]
                &&& final(self).iter_index() == old(self).iter_index() + 1
            },
    {
        if self.done {
            return None;
        }
        let ghost o = *self;
        proof {
            assert(crate::radix::all_pos(o.grid())) by {
                assert forall|d: int| 0 <= d < o.grid().len() implies 1 <= o.grid()[d] by {
                    assert(0 <= o.digits()[d] && o.digits()[d] < o.grid()[d]);
                }
            }
            lemma_encode_decode(o.digits(), o.grid());
            assert forall|d: int| 0 <= d < o.current@.len() implies
                (#[trigger] o.current@[d]) as int == o.step@[d]
                    * decode(o.iter_index(), o.grid())[d] by {
                lemma_fundamental_div_mod(o.current@[d] as int, o.step@[d] as int);
                assert(decode(o.iter_index(), o.grid())[d] == o.digits()[d]);
            }
        }
        let mut result: Vec<usize> = Vec::new();
        let n = self.current.len();
        let mut i: usize = 0;
        while i < n
            invariant
                self.current@.len() == n,
                0 <= i <= n,
                result@ =~= self.current@.take(i as int),
            decreases n - i,
        {
            result.push(self.current[i]);
            assert(result@ =~= self.current@.take(i + 1));
            i = i + 1;
        }
        proof {
            assert(self.current@.take(n as int) =~= self.current@);
        }
        let mut d = n;
        let mut moved = false;
        while d > 0 && !moved
            invariant
                self.limit@ == o.limit@,
                self.step@ == o.step@,
                self.done == o.done,
                !o.done,
                o.wf(),
                self.current@.len() == n,
                o.current@.len() == n,
                o.limit@.len() == n,
                0 <= d <= n,
                forall|j: int| 0 <= j < d ==> #[trigger] self.current@[j] == o.current@[j],
                !moved ==> forall|j: int|
                    d <= j < n ==> (#[trigger] self.current@[j] == 0
                        && o.digits()[j] == o.grid()[j] - 1),
                moved ==> {
                    &&& in_range(self.digits(), o.grid())
                    &&& encode(self.digits(), o.grid()) == encode(o.digits(), o.grid()) + 1
                    &&& forall|j: int|
                        0 <= j < n ==> (#[trigger] self.current@[j]) as int
                            % o.step@[j] as int == 0
                },
            decreases d,
        {
            d = d - 1;
            proof {
                assert(o.current@[d as int] as int % o.step@[d as int] as int == 0);
                lemma_fundamental_div_mod(o.current@[d as int] as int, o.step@[d as int] as int);
                assert(o.digits()[d as int] < o.grid()[d as int]);
                assert(o.limit@[d as int] as int % o.step@[d as int] as int == 0);
                lemma_fundamental_div_mod(o.limit@[d as int] as int, o.step@[d as int] as int);
                // current + step stays at most limit
                let st = o.step@[d as int] as int;
                let dg = o.digits()[d as int];
                let g = o.grid()[d as int] as int;
                assert(o.current@[d as int] as int == st * dg);
                assert(o.limit@[d as int] as int == st * g);
                assert(st * dg + st == st * (dg + 1)) by (nonlinear_arith);
                assert(st * (dg + 1) <= st * g) by (nonlinear_arith)
                    requires
                        dg + 1 <= g,
                        st >= 1,
                ;
            }
            let c2 = self.current[d] + self.step[d];
            self.current[d] = c2;
            proof {
                let st = o.step@[d as int] as int;
                let dg = o.digits()[d as int];
                let g = o.grid()[d as int] as int;
                assert(c2 as int == st * (dg + 1)) by (nonlinear_arith)
                    requires
                        c2 as int == st * dg + st,
                ;
            }
            if self.current[d] < self.limit[d] {
                moved = true;
                proof {
                    let st = o.step@[d as int] as int;
                    let dg = o.digits()[d as int];
                    let g = o.grid()[d as int] as int;
                    // the stepped digit
                    lemma_div_multiples_vanish(dg + 1, st);
                    assert(self.current@[d as int] as int / st == dg + 1);
                    assert(st * (dg + 1) < st * g);
                    assert(dg + 1 < g) by (nonlinear_arith)
                        requires
                            st * (dg + 1) < st * g,
                            st >= 1,
                    ;
                    let nds = self.digits();
                    assert forall|j: int| 0 <= j < d implies nds[j] == o.digits()[j] by {}
                    assert forall|j: int| d < j < n implies nds[j] == 0 by {
                        lemma_small_mod(0, o.step@[j] as nat);
                        lemma_fundamental_div_mod(0, o.step@[j] as int);
                        assert(self.current@[j] == 0);
                        assert(0int / (o.step@[j] as int) == 0) by {
                            lemma_div_multiples_vanish(0, o.step@[j] as int);
                            assert((o.step@[j] as int) * 0 == 0) by (nonlinear_arith);
                        }
                    }
                    assert(nds[d as int] == dg + 1);
                    assert(crate::radix::all_pos(o.grid())) by {
                        assert forall|j: int| 0 <= j < o.grid().len() implies
                            1 <= o.grid()[j] by {
                            assert(0 <= o.digits()[j] && o.digits()[j] < o.grid()[j]);
                        }
                    }
                    assert forall|j: int| d < j < n implies
                        o.digits()[j] == o.grid()[j] - 1 by {
                        assert(self.current@[j] == 0);
                    }
                    lemma_encode_ripple(o.digits(), nds, o.grid(), d as int);
                    assert forall|j: int| 0 <= j < n implies
                        (#[trigger] self.current@[j]) as int % o.step@[j] as int == 0 by {
                        if j == d {
                            vstd::arithmetic::div_mod::lemma_mod_multiples_basic(
                                dg + 1,
                                st,
                            );
                            assert((dg + 1) * st == st * (dg + 1)) by (nonlinear_arith);
                        } else if j > d {
                            lemma_small_mod(0, o.step@[j] as nat);
                        }
                    }
                }
            } else {
                proof {
                    let st = o.step@[d as int] as int;
                    let dg = o.digits()[d as int];
                    let g = o.grid()[d as int] as int;
                    assert(st * (dg + 1) >= st * g);
                    assert(dg + 1 >= g) by (nonlinear_arith)
                        requires
                            st * (dg + 1) >= st * g,
                            st >= 1,
                    ;
                    assert(dg == g - 1);
                }
                self.current[d] = 0;
            }
        }
        if !moved {
            self.done = true;
            proof {
                assert forall|j: int| 0 <= j < n implies
                    o.digits()[j] == o.grid()[j] - 1 by {
                    assert(self.current@[j] == 0);
                }
                assert(crate::radix::all_pos(o.grid())) by {
                    assert forall|j: int| 0 <= j < o.grid().len() implies
                        1 <= o.grid()[j] by {
                        assert(0 <= o.digits()[j] && o.digits()[j] < o.grid()[j]);
                    }
                }
                lemma_encode_all_max(o.digits(), o.grid());
                assert(self.iter_index() == o.iter_index() + 1);
                assert forall|j: int| 0 <= j < n implies (1 <= #[trigger] self.step@[j]
                    && self.limit@[j] as int % self.step@[j] as int == 0
                    && self.current@[j] as int % self.step@[j] as int == 0) by {
                    lemma_small_mod(0, o.step@[j] as nat);
                    assert(self.current@[j] == 0);
                }
            }
        } else {
            proof {
                lemma_encode_bound(o.digits(), o.grid());
                assert(self.iter_index() == o.iter_index() + 1);
            }
        }
        Some(result)
    }
}

} // verus!
