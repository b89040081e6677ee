//! Mixed-radix index arithmetic over runs of extents.
//!
//! A run of extents `g = (g0, ..., g_{n-1})` defines a lexicographic
//! enumeration of the multi-indices `(d0, ..., d_{n-1})` with
//! `0 <= d_j < g_j`, the rightmost position varying fastest.  `encode`
//! maps a multi-index to its position in that enumeration, `decode`
//! inverts it.  These functions are the common substrate for
//! coordinate/offset conversion and for the tile iterators.

use vstd::prelude::*;
use vstd::arithmetic::div_mod::{
    lemma_fundamental_div_mod, lemma_fundamental_div_mod_converse, lemma_mod_bound,
    lemma_div_pos_is_pos, lemma_multiply_divide_lt, lemma_div_non_zero,
};

verus! {

/// Product of a run of extents.
pub open spec fn seq_prod(s: Seq<usize>) -> int
    decreases s.len(),
{
    if s.len() == 0 {
        1
    } else {
        s[0] * seq_prod(s.drop_first())
    }
}

/// Every extent of the run is at least one.
pub open spec fn all_pos(s: Seq<usize>) -> bool {
    forall|d: int| 0 <= d < s.len() ==> 1 <= s[d]
}

pub proof fn lemma_seq_prod_nonneg(s: Seq<usize>)
    ensures
        seq_prod(s) >= 0,
    decreases s.len(),
{
    if s.len() > 0 {
        lemma_seq_prod_nonneg(s.drop_first());
        assert(s[0] * seq_prod(s.drop_first()) >= 0) by (nonlinear_arith)
            requires
                s[0] >= 0,
                seq_prod(s.drop_first()) >= 0,
        ;
    }
}

pub proof fn lemma_seq_prod_pos(s: Seq<usize>)
    requires
        all_pos(s),
    ensures
        seq_prod(s) >= 1,
    decreases s.len(),
{
    if s.len() > 0 {
        assert(all_pos(s.drop_first()));
        lemma_seq_prod_pos(s.drop_first());
        assert(s[0] * seq_prod(s.drop_first()) >= 1) by (nonlinear_arith)
            requires
                s[0] >= 1,
                seq_prod(s.drop_first()) >= 1,
        ;
    }
}

pub proof fn lemma_seq_prod_pos_converse(s: Seq<usize>)
    requires
        seq_prod(s) >= 1,
    ensures
        all_pos(s),
    decreases s.len(),
{
    if s.len() > 0 {
        lemma_seq_prod_nonneg(s.drop_first());
        assert(s[0] >= 1 && seq_prod(s.drop_first()) >= 1) by (nonlinear_arith)
            requires
                s[0] * seq_prod(s.drop_first()) >= 1,
                s[0] >= 0,
                seq_prod(s.drop_first()) >= 0,
        ;
        lemma_seq_prod_pos_converse(s.drop_first());
        assert forall|d: int| 0 <= d < s.len() implies 1 <= s[d] by {
            if d > 0 {
                assert(s.drop_first()[d - 1] == s[d]);
            }
        }
    }
}

/// Removing the last element divides the product by it.
pub proof fn lemma_seq_prod_drop_last(s: Seq<usize>)
    requires
        s.len() > 0,
    ensures
        seq_prod(s) == seq_prod(s.drop_last()) * s.last(),
    decreases s.len(),
{
    if s.len() == 1 {
        assert(s.drop_first().len() == 0);
        assert(s.drop_last().len() == 0);
        assert(seq_prod(s.drop_first()) == 1);
        assert(seq_prod(s) == s[0] * seq_prod(s.drop_first()));
        assert(s[0] * 1 == s[0]) by (nonlinear_arith);
        assert(1 * s.last() == s.last()) by (nonlinear_arith);
        assert(s.last() == s[0]);
    } else {
        lemma_seq_prod_drop_last(s.drop_first());
        assert(s.drop_first().drop_last() =~= s.drop_last().drop_first());
        assert(s.drop_first().last() == s.last());
        let m = seq_prod(s.drop_last().drop_first());
        assert(seq_prod(s.drop_first()) == m * s.last());
        assert(seq_prod(s) == s[0] * (m * s.last()));
        assert(s[0] * (m * s.last()) == (s[0] * m) * s.last()) by (nonlinear_arith);
        assert(s.drop_last()[0] == s[0]);
        assert(s.drop_last().len() > 0);
        assert(seq_prod(s.drop_last()) == s[0] * m);
    }
}

/// The product of one more leading element.
pub proof fn lemma_seq_prod_take_succ(s: Seq<usize>, k: int)
    requires
        0 <= k < s.len(),
    ensures
        seq_prod(s.take(k + 1)) == seq_prod(s.take(k)) * s[k],
{
    let t = s.take(k + 1);
    assert(t.drop_last() =~= s.take(k));
    assert(t.last() == s[k]);
    lemma_seq_prod_drop_last(t);
}

/// Peeling one element off the head of a suffix.
pub proof fn lemma_seq_prod_skip_step(s: Seq<usize>, d: int)
    requires
        0 <= d < s.len(),
    ensures
        seq_prod(s.skip(d)) == s[d] * seq_prod(s.skip(d + 1)),
{
    let t = s.skip(d);
    assert(t.len() > 0);
    assert(t[0] == s[d]);
    assert(t.drop_first() =~= s.skip(d + 1));
}

pub proof fn lemma_seq_prod_concat(a: Seq<usize>, b: Seq<usize>)
    ensures
        seq_prod(a + b) == seq_prod(a) * seq_prod(b),
    decreases a.len(),
{
    if a.len() == 0 {
        assert(a + b =~= b);
    } else {
        lemma_seq_prod_concat(a.drop_first(), b);
        assert((a + b).drop_first() =~= a.drop_first() + b);
        assert((a + b)[0] == a[0]);
        assert(a[0] * (seq_prod(a.drop_first()) * seq_prod(b))
            == (a[0] * seq_prod(a.drop_first())) * seq_prod(b)) by (nonlinear_arith);
    }
}

/// A multi-index that is in range for the run of extents `g`.
pub open spec fn in_range(ds: Seq<int>, g: Seq<usize>) -> bool {
    &&& ds.len() == g.len()
    &&& forall|d: int| 0 <= d < g.len() ==> (0 <= #[trigger] ds[d] && ds[d] < g[d])
}

/// Position of the multi-index `ds` in the lexicographic enumeration
/// over the extents `g` (rightmost position fastest).
pub open spec fn encode(ds: Seq<int>, g: Seq<usize>) -> int
    decreases g.len(),
{
    if g.len() == 0 {
        0
    } else {
        ds[0] * seq_prod(g.drop_first()) + encode(ds.drop_first(), g.drop_first())
    }
}

/// The multi-index at position `k` of the lexicographic enumeration.
pub open spec fn decode(k: int, g: Seq<usize>) -> Seq<int>
    decreases g.len(),
{
    if g.len() == 0 {
        Seq::empty()
    } else {
        let sp = seq_prod(g.drop_first());
        seq![k / sp] + decode(k % sp, g.drop_first())
    }
}

pub proof fn lemma_decode_in_range(k: int, g: Seq<usize>)
    requires
        0 <= k < seq_prod(g),
    ensures
        in_range(decode(k, g), g),
        encode(decode(k, g), g) == k,
    decreases g.len(),
{
    if g.len() == 0 {
    } else {
        let sp = seq_prod(g.drop_first());
        lemma_seq_prod_pos_converse(g);
        lemma_seq_prod_pos(g.drop_first());
        assert(seq_prod(g) == g[0] * sp);
        assert(g[0] * sp == sp * g[0]) by (nonlinear_arith);
        lemma_multiply_divide_lt(k, sp, g[0] as int);
        lemma_div_pos_is_pos(k, sp);
        lemma_mod_bound(k, sp);
        lemma_decode_in_range(k % sp, g.drop_first());
        let ds = decode(k, g);
        assert(ds[0] == k / sp);
        assert(ds.drop_first() =~= decode(k % sp, g.drop_first()));
        lemma_fundamental_div_mod(k, sp);
        assert forall|d: int| 0 <= d < g.len() implies (0 <= #[trigger] ds[d] && ds[d] < g[d]) by {
            if d > 0 {
                assert(ds.drop_first()[d - 1] == ds[d]);
                assert(g.drop_first()[d - 1] == g[d]);
            }
        }
    }
}

pub proof fn lemma_encode_bound(ds: Seq<int>, g: Seq<usize>)
    requires
        in_range(ds, g),
    ensures
        0 <= encode(ds, g) < seq_prod(g),
    decreases g.len(),
{
    if g.len() == 0 {
    } else {
        let sp = seq_prod(g.drop_first());
        assert(in_range(ds.drop_first(), g.drop_first())) by {
            assert forall|d: int| 0 <= d < g.len() - 1 implies
                (0 <= #[trigger] ds.drop_first()[d] && ds.drop_first()[d] < g.drop_first()[d]) by {
                assert(ds.drop_first()[d] == ds[d + 1]);
                assert(g.drop_first()[d] == g[d + 1]);
            }
        }
        lemma_encode_bound(ds.drop_first(), g.drop_first());
        lemma_seq_prod_nonneg(g.drop_first());
        let e = encode(ds.drop_first(), g.drop_first());
        assert(0 <= ds[0] * sp + e < g[0] * sp) by (nonlinear_arith)
            requires
                0 <= e < sp,
                0 <= ds[0] <= g[0] - 1,
        ;
        assert(seq_prod(g) == g[0] * sp);
    }
}

pub proof fn lemma_encode_decode(ds: Seq<int>, g: Seq<usize>)
    requires
        in_range(ds, g),
    ensures
        decode(encode(ds, g), g) == ds,
    decreases g.len(),
{
    if g.len() == 0 {
        assert(decode(encode(ds, g), g) =~= ds);
    } else {
        let sp = seq_prod(g.drop_first());
        assert(in_range(ds.drop_first(), g.drop_first())) by {
            assert forall|d: int| 0 <= d < g.len() - 1 implies
                (0 <= #[trigger] ds.drop_first()[d] && ds.drop_first()[d] < g.drop_first()[d]) by {
                assert(ds.drop_first()[d] == ds[d + 1]);
                assert(g.drop_first()[d] == g[d + 1]);
            }
        }
        lemma_encode_bound(ds.drop_first(), g.drop_first());
        let e = encode(ds.drop_first(), g.drop_first());
        let k = encode(ds, g);
        assert(k == ds[0] * sp + e);
        assert(all_pos(g.drop_first())) by {
            assert forall|d: int| 0 <= d < g.len() - 1 implies 1 <= g.drop_first()[d] by {
                assert(g.drop_first()[d] == g[d + 1]);
                assert(0 <= ds[d + 1] < g[d + 1]);
            }
        }
        lemma_seq_prod_pos(g.drop_first());
        lemma_fundamental_div_mod_converse(k, sp, ds[0], e);
        lemma_encode_decode(ds.drop_first(), g.drop_first());
        assert(decode(k, g) =~= ds);
    }
}

/// The all-zero multi-index sits at position zero.
pub proof fn lemma_encode_zero(ds: Seq<int>, g: Seq<usize>)
    requires
        ds.len() == g.len(),
        forall|d: int| 0 <= d < ds.len() ==> ds[d] == 0,
    ensures
        encode(ds, g) == 0,
    decreases g.len(),
{
    if g.len() > 0 {
        lemma_encode_zero(ds.drop_first(), g.drop_first());
    }
}

/// The all-maximal multi-index sits at the last position.
pub proof fn lemma_encode_all_max(ds: Seq<int>, g: Seq<usize>)
    requires
        ds.len() == g.len(),
        all_pos(g),
        forall|d: int| 0 <= d < ds.len() ==> ds[d] == g[d] - 1,
    ensures
        encode(ds, g) == seq_prod(g) - 1,
    decreases g.len(),
{
    if g.len() > 0 {
        assert(all_pos(g.drop_first()));
        assert forall|d: int| 0 <= d < ds.len() - 1 implies
            ds.drop_first()[d] == g.drop_first()[d] - 1 by {
            assert(ds.drop_first()[d] == ds[d + 1]);
            assert(g.drop_first()[d] == g[d + 1]);
        }
        lemma_encode_all_max(ds.drop_first(), g.drop_first());
        let sp = seq_prod(g.drop_first());
        assert(encode(ds, g) == (g[0] - 1) * sp + sp - 1);
        assert((g[0] - 1) * sp + sp - 1 == g[0] * sp - 1) by (nonlinear_arith);
    }
}

/// Adding one to the enumeration position ripples through a maximal
/// suffix: the digit at `p` steps up, everything after it resets.
pub proof fn lemma_encode_ripple(ds: Seq<int>, new_ds: Seq<int>, g: Seq<usize>, p: int)
    requires
        in_range(ds, g),
        all_pos(g),
        0 <= p < g.len(),
        ds[p] + 1 < g[p],
        forall|j: int| p < j < g.len() ==> ds[j] == g[j] - 1,
        new_ds.len() == g.len(),
        forall|j: int| 0 <= j < p ==> new_ds[j] == ds[j],
        new_ds[p] == ds[p] + 1,
        forall|j: int| p < j < g.len() ==> new_ds[j] == 0,
    ensures
        in_range(new_ds, g),
        encode(new_ds, g) == encode(ds, g) + 1,
    decreases g.len(),
{
    if p == 0 {
        let sp = seq_prod(g.drop_first());
        assert forall|d: int| 0 <= d < g.len() - 1 implies
            ds.drop_first()[d] == g.drop_first()[d] - 1 by {
            assert(ds.drop_first()[d] == ds[d + 1]);
            assert(g.drop_first()[d] == g[d + 1]);
        }
        assert(in_range(ds.drop_first(), g.drop_first())) by {
            assert forall|d: int| 0 <= d < g.len() - 1 implies
                (0 <= #[trigger] ds.drop_first()[d] && ds.drop_first()[d] < g.drop_first()[d]) by {
                assert(ds.drop_first()[d] == ds[d + 1]);
                assert(g.drop_first()[d] == g[d + 1]);
            }
        }
        assert(all_pos(g.drop_first()));
        lemma_encode_all_max(ds.drop_first(), g.drop_first());
        lemma_encode_zero(new_ds.drop_first(), g.drop_first());
        assert(encode(ds, g) == ds[0] * sp + sp - 1);
        assert(encode(new_ds, g) == (ds[0] + 1) * sp);
        assert((ds[0] + 1) * sp == ds[0] * sp + sp) by (nonlinear_arith);
    } else {
        assert(in_range(ds.drop_first(), g.drop_first())) by {
            assert forall|d: int| 0 <= d < g.len() - 1 implies
                (0 <= #[trigger] ds.drop_first()[d] && ds.drop_first()[d] < g.drop_first()[d]) by {
                assert(ds.drop_first()[d] == ds[d + 1]);
                assert(g.drop_first()[d] == g[d + 1]);
            }
        }
        assert(all_pos(g.drop_first()));
        lemma_encode_ripple(ds.drop_first(), new_ds.drop_first(), g.drop_first(), p - 1);
        assert(new_ds[0] == ds[0]);
    }
}

/// Rounded-up quotient.
pub open spec fn ceil_div(f: int, t: int) -> int {
    (f + t - 1) / t
}

/// The rounded-up quotient brackets `f` between consecutive multiples.
pub proof fn lemma_ceil_div_bounds(f: int, t: int)
    requires
        f >= 1,
        t >= 1,
    ensures
        ceil_div(f, t) >= 1,
        (ceil_div(f, t) - 1) * t < f,
        f <= ceil_div(f, t) * t,
{
    let c = ceil_div(f, t);
    lemma_fundamental_div_mod(f + t - 1, t);
    lemma_mod_bound(f + t - 1, t);
    let r = (f + t - 1) % t;
    assert(f + t - 1 == t * c + r);
    assert(t * c == c * t) by (nonlinear_arith);
    assert((c - 1) * t == c * t - t) by (nonlinear_arith);
    assert((c - 1) * t == f - 1 - r);
    assert(c * t == f + t - 1 - r);
    assert(c >= 1) by (nonlinear_arith)
        requires
            c * t == f + t - 1 - r,
            0 <= r < t,
            f >= 1,
            t >= 1,
    ;
}

/// A value below `f` falls in exactly one length-`t` block.
pub proof fn lemma_block_of(x: int, t: int, f: int)
    requires
        t >= 1,
        0 <= x < f,
    ensures
        0 <= x / t < ceil_div(f, t),
        (x / t) * t <= x < (x / t) * t + t,
{
    lemma_div_pos_is_pos(x, t);
    lemma_fundamental_div_mod(x, t);
    lemma_mod_bound(x, t);
    assert(t * (x / t) == (x / t) * t) by (nonlinear_arith);
    lemma_ceil_div_bounds(f, t);
    let c = ceil_div(f, t);
    assert(x / t < c) by (nonlinear_arith)
        requires
            (x / t) * t <= x,
            x < f,
            f <= c * t,
            t >= 1,
    ;
}

/// A prefix's product is bracketed by one and the whole product when
/// every extent is positive.
pub proof fn lemma_seq_prod_take_le(s: Seq<usize>, k: int)
    requires
        all_pos(s),
        0 <= k <= s.len(),
    ensures
        1 <= seq_prod(s.take(k)),
        seq_prod(s.take(k)) <= seq_prod(s),
{
    assert(s =~= s.take(k) + s.skip(k));
    lemma_seq_prod_concat(s.take(k), s.skip(k));
    assert(all_pos(s.take(k)));
    assert(all_pos(s.skip(k))) by {
        assert forall|d: int| 0 <= d < s.skip(k).len() implies 1 <= s.skip(k)[d] by {
            assert(s.skip(k)[d] == s[d + k]);
        }
    }
    lemma_seq_prod_pos(s.take(k));
    lemma_seq_prod_pos(s.skip(k));
    assert(seq_prod(s.take(k)) <= seq_prod(s.take(k)) * seq_prod(s.skip(k))) by (nonlinear_arith)
        requires
            1 <= seq_prod(s.take(k)),
            1 <= seq_prod(s.skip(k)),
    ;
}

/// A suffix's product is bracketed by one and the whole product when
/// every extent is positive.
pub proof fn lemma_seq_prod_skip_le(s: Seq<usize>, k: int)
    requires
        all_pos(s),
        0 <= k <= s.len(),
    ensures
        1 <= seq_prod(s.skip(k)),
        seq_prod(s.skip(k)) <= seq_prod(s),
{
    assert(s =~= s.take(k) + s.skip(k));
    lemma_seq_prod_concat(s.take(k), s.skip(k));
    assert(all_pos(s.take(k)));
    assert(all_pos(s.skip(k))) by {
        assert forall|d: int| 0 <= d < s.skip(k).len() implies 1 <= s.skip(k)[d] by {
            assert(s.skip(k)[d] == s[d + k]);
        }
    }
    lemma_seq_prod_pos(s.take(k));
    lemma_seq_prod_pos(s.skip(k));
    assert(seq_prod(s.skip(k)) <= seq_prod(s.take(k)) * seq_prod(s.skip(k))) by (nonlinear_arith)
        requires
            1 <= seq_prod(s.take(k)),
            1 <= seq_prod(s.skip(k)),
    ;
}

/// Digits peeled off a linear index by successive division by the
/// strides, in order.
pub open spec fn decomp_digits(i: int, st: Seq<usize>) -> Seq<int>
    decreases st.len(),
{
    if st.len() == 0 {
        Seq::empty()
    } else {
        seq![i / (st[0] as int)] + decomp_digits(i % (st[0] as int), st.drop_first())
    }
}

/// What remains of the index after all strides are peeled off.
pub open spec fn decomp_rem(i: int, st: Seq<usize>) -> int
    decreases st.len(),
{
    if st.len() == 0 {
        i
    } else {
        decomp_rem(i % (st[0] as int), st.drop_first())
    }
}

/// The decomposition stays within the declared extents and never
/// divides by zero.
pub open spec fn decomp_ok(i: int, sh: Seq<usize>, st: Seq<usize>) -> bool
    decreases st.len(),
{
    if st.len() == 0 {
        true
    } else {
        &&& 1 <= st[0]
        &&& i / (st[0] as int) < sh[0]
        &&& decomp_ok(i % (st[0] as int), sh.drop_first(), st.drop_first())
    }
}

/// The weighted sum of digits against their strides.
pub open spec fn recompose(ds: Seq<int>, st: Seq<usize>) -> int
    decreases st.len(),
{
    if st.len() == 0 {
        0
    } else {
        ds[0] * st[0] + recompose(ds.drop_first(), st.drop_first())
    }
}

pub proof fn lemma_decomp_len(i: int, st: Seq<usize>)
    ensures
        decomp_digits(i, st).len() == st.len(),
    decreases st.len(),
{
    if st.len() > 0 {
        lemma_decomp_len(i % (st[0] as int), st.drop_first());
    }
}

/// Decomposing against concatenated strides peels the first run, then
/// the second from what remains.
pub proof fn lemma_decomp_concat(i: int, st1: Seq<usize>, st2: Seq<usize>)
    ensures
        decomp_digits(i, st1 + st2)
            =~= decomp_digits(i, st1) + decomp_digits(decomp_rem(i, st1), st2),
        decomp_rem(i, st1 + st2) == decomp_rem(decomp_rem(i, st1), st2),
    decreases st1.len(),
{
    if st1.len() == 0 {
        assert(st1 + st2 =~= st2);
    } else {
        assert((st1 + st2)[0] == st1[0]);
        assert((st1 + st2).drop_first() =~= st1.drop_first() + st2);
        lemma_decomp_concat(i % (st1[0] as int), st1.drop_first(), st2);
    }
}

/// The in-range check splits at the same boundary.
pub proof fn lemma_decomp_ok_concat(i: int, sh1: Seq<usize>, sh2: Seq<usize>, st1: Seq<usize>, st2: Seq<usize>)
    requires
        sh1.len() == st1.len(),
    ensures
        decomp_ok(i, sh1 + sh2, st1 + st2)
            == (decomp_ok(i, sh1, st1) && decomp_ok(decomp_rem(i, st1), sh2, st2)),
    decreases st1.len(),
{
    if st1.len() == 0 {
        assert(st1 + st2 =~= st2);
        assert(sh1 + sh2 =~= sh2);
    } else {
        assert((st1 + st2)[0] == st1[0]);
        assert((sh1 + sh2)[0] == sh1[0]);
        assert((st1 + st2).drop_first() =~= st1.drop_first() + st2);
        assert((sh1 + sh2).drop_first() =~= sh1.drop_first() + sh2);
        lemma_decomp_ok_concat(i % (st1[0] as int), sh1.drop_first(), sh2, st1.drop_first(), st2);
    }
}

/// Round trip at the flat level: decomposing a linear index below the
/// total size against row-major strides stays in range, and the
/// weighted sum of the digits restores the index.
pub proof fn lemma_rm_round_trip(i: int, sh: Seq<usize>, st: Seq<usize>)
    requires
        st.len() == sh.len(),
        forall|d: int| 0 <= d < st.len() ==> (#[trigger] st[d]) as int == seq_prod(sh.skip(d + 1)),
        0 <= i < seq_prod(sh),
    ensures
        decomp_ok(i, sh, st),
        recompose(decomp_digits(i, st), st) == i,
        in_range(decomp_digits(i, st), sh),
    decreases sh.len(),
{
    lemma_decomp_len(i, st);
    if sh.len() == 0 {
    } else {
        let sp = seq_prod(sh.drop_first());
        assert(st[0] as int == sp) by {
            assert(sh.skip(1) =~= sh.drop_first());
        }
        lemma_seq_prod_pos_converse(sh);
        lemma_seq_prod_pos(sh.drop_first());
        assert(seq_prod(sh) == sh[0] * sp);
        assert(sh[0] * sp == sp * sh[0]) by (nonlinear_arith);
        lemma_multiply_divide_lt(i, sp, sh[0] as int);
        lemma_div_pos_is_pos(i, sp);
        lemma_mod_bound(i, sp);
        assert forall|d: int| 0 <= d < st.drop_first().len() implies
            (#[trigger] st.drop_first()[d]) as int
                == seq_prod(sh.drop_first().skip(d + 1)) by {
            assert(st.drop_first()[d] == st[d + 1]);
            assert(sh.drop_first().skip(d + 1) =~= sh.skip(d + 2));
        }
        lemma_rm_round_trip(i % sp, sh.drop_first(), st.drop_first());
        let ds = decomp_digits(i, st);
        assert(ds[0] == i / sp);
        assert(ds.drop_first() =~= decomp_digits(i % sp, st.drop_first()));
        lemma_fundamental_div_mod(i, sp);
        assert(recompose(ds, st) == (i / sp) * sp + (i % sp)) by {
            assert(recompose(ds, st) == ds[0] * st[0] + recompose(ds.drop_first(), st.drop_first()));
        }
        assert((i / sp) * sp == sp * (i / sp)) by (nonlinear_arith);
        assert forall|d: int| 0 <= d < sh.len() implies (0 <= #[trigger] ds[d] && ds[d] < sh[d]) by {
            if d > 0 {
                assert(ds.drop_first()[d - 1] == ds[d]);
                assert(sh.drop_first()[d - 1] == sh[d]);
            }
        }
    }
}

/// The per-dimension quotients against a tiler multiply back to at
/// most the undivided product.
pub open spec fn quot_seq(lf: Seq<usize>, tf: Seq<usize>) -> Seq<usize> {
    Seq::new(lf.len(), |d: int| (lf[d] / tf[d]) as usize)
}

pub proof fn lemma_quot_prod_le(lf: Seq<usize>, tf: Seq<usize>)
    requires
        lf.len() == tf.len(),
        forall|d: int| 0 <= d < tf.len() ==> (1 <= #[trigger] tf[d] && tf[d] <= lf[d]),
    ensures
        1 <= seq_prod(quot_seq(lf, tf)),
        seq_prod(tf) * seq_prod(quot_seq(lf, tf)) <= seq_prod(lf),
    decreases lf.len(),
{
    if lf.len() == 0 {
        assert(quot_seq(lf, tf).len() == 0);
        assert(seq_prod(tf) * seq_prod(quot_seq(lf, tf)) == 1) by (nonlinear_arith)
            requires
                seq_prod(tf) == 1,
                seq_prod(quot_seq(lf, tf)) == 1,
        ;
    } else {
        assert forall|d: int| 0 <= d < tf.drop_first().len() implies
            (1 <= #[trigger] tf.drop_first()[d] && tf.drop_first()[d] <= lf.drop_first()[d]) by {
            assert(tf.drop_first()[d] == tf[d + 1]);
            assert(lf.drop_first()[d] == lf[d + 1]);
        }
        lemma_quot_prod_le(lf.drop_first(), tf.drop_first());
        assert(quot_seq(lf, tf).drop_first() =~= quot_seq(lf.drop_first(), tf.drop_first()));
        let q0 = lf[0] as int / tf[0] as int;
        assert(quot_seq(lf, tf)[0] as int == q0);
        lemma_fundamental_div_mod(lf[0] as int, tf[0] as int);
        lemma_mod_bound(lf[0] as int, tf[0] as int);
        assert(tf[0] * q0 <= lf[0]);
        lemma_div_non_zero(lf[0] as int, tf[0] as int);
        assert(q0 >= 1);
        let pt = seq_prod(tf.drop_first());
        let pq = seq_prod(quot_seq(lf.drop_first(), tf.drop_first()));
        let pl = seq_prod(lf.drop_first());
        lemma_seq_prod_nonneg(tf.drop_first());
        lemma_seq_prod_nonneg(lf.drop_first());
        assert(seq_prod(tf) == tf[0] * pt);
        assert(seq_prod(lf) == lf[0] * pl);
        assert(seq_prod(quot_seq(lf, tf)) == q0 * pq);
        assert(q0 * pq >= 1) by (nonlinear_arith)
            requires
                q0 >= 1,
                pq >= 1,
        ;
        assert((tf[0] * pt) * (q0 * pq) <= lf[0] * pl) by (nonlinear_arith)
            requires
                pt * pq <= pl,
                tf[0] * q0 <= lf[0],
                tf[0] >= 1,
                q0 >= 1,
                pt >= 0,
                pq >= 1,
                pl >= 0,
                lf[0] >= 1,
        ;
    }
}

/// Products respect pointwise bounds of non-negative runs.
pub proof fn lemma_seq_prod_le_pointwise(a: Seq<usize>, b: Seq<usize>)
    requires
        a.len() == b.len(),
        forall|d: int| 0 <= d < a.len() ==> #[trigger] a[d] <= b[d],
    ensures
        seq_prod(a) <= seq_prod(b),
    decreases a.len(),
{
    if a.len() > 0 {
        assert forall|d: int| 0 <= d < a.drop_first().len() implies
            #[trigger] a.drop_first()[d] <= b.drop_first()[d] by {
            assert(a.drop_first()[d] == a[d + 1]);
            assert(b.drop_first()[d] == b[d + 1]);
        }
        lemma_seq_prod_le_pointwise(a.drop_first(), b.drop_first());
        lemma_seq_prod_nonneg(a.drop_first());
        lemma_seq_prod_nonneg(b.drop_first());
        assert(a[0] * seq_prod(a.drop_first()) <= b[0] * seq_prod(b.drop_first()))
            by (nonlinear_arith)
            requires
                0 <= a[0] <= b[0],
                0 <= seq_prod(a.drop_first()) <= seq_prod(b.drop_first()),
        ;
    }
}

} // verus!
