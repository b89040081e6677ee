//! Element-for-element copy between views of the same shape, walking
//! every coordinate of the shape in row-major order.

use vstd::prelude::*;
use crate::radix::{seq_prod, decode, recompose, all_pos, in_range, lemma_seq_prod_pos};
use crate::layout_iter::LayoutIterator;
use crate::tensor::{Tensor, TensorView, TensorViewMut};
use crate::tuple::{Tuple, TupleView, leaf_dot, lemma_leaf_dot_recompose, lemma_leaf_dot_take,
    lemma_leaf_dot_prefix, lemma_leaf_dot_nonneg, lemma_leaves_pos_flat, lemma_size_is_flat_prod};

verus! {

/// The linear offset that strides `st` assign to the `k`-th coordinate
/// of the row-major enumeration over the extents `sh`.
pub open spec fn offset_at(sh: Seq<usize>, st: Seq<usize>, k: int) -> int {
    recompose(decode(k, sh), st)
}

/// All coordinate vectors over the given flat extents, in row-major
/// order.
pub fn enumerate_int(dims: &Vec<usize>) -> (r: Vec<Vec<usize>>)
    requires
        all_pos(dims@),
        seq_prod(dims@) <= usize::MAX,
    ensures
        r@.len() == seq_prod(dims@),
        forall|k: int| 0 <= k < r@.len() ==> (#[trigger] r@[k])@.len() == dims@.len(),
        forall|k: int, d: int|
            0 <= k < r@.len() && 0 <= d < dims@.len()
                ==> (#[trigger] r@[k]@[d]) as int == decode(k, dims@)[d],
{
    let mut shape_copy: Vec<usize> = Vec::new();
    let mut i: usize = 0;
    while i < dims.len()
        invariant
            0 <= i <= dims.len(),
            shape_copy@ =~= dims@.take(i as int),
        decreases dims.len() - i,
    {
        shape_copy.push(dims[i]);
        assert(shape_copy@ =~= dims@.take(i + 1));
        i = i + 1;
    }
    proof {
        assert(dims@.take(dims@.len() as int) =~= dims@);
        lemma_seq_prod_pos(dims@);
    }
    let mut it = LayoutIterator::new(shape_copy);
    let mut out: Vec<Vec<usize>> = Vec::new();
    proof {
        assert(it.total() == seq_prod(dims@));
    }
    while !it.done
        invariant
            it.wf(),
            it.grid() =~= dims@,
            it.limit@ == dims@,
            it.step@.len() == dims@.len(),
            forall|d: int| 0 <= d < dims@.len() ==> #[trigger] it.step@[d] == 1,
            it.total() == seq_prod(dims@),
            seq_prod(dims@) <= usize::MAX,
            0 <= it.iter_index() <= it.total(),
            out@.len() == it.iter_index(),
            forall|k: int| 0 <= k < out@.len() ==> (#[trigger] out@[k])@.len() == dims@.len(),
            forall|k: int, d: int|
                0 <= k < out@.len() && 0 <= d < dims@.len()
                    ==> (#[trigger] out@[k]@[d]) as int == decode(k, dims@)[d],
        decreases it.total() - it.iter_index(),
    {
        let ghost oi = it;
        let nx = it.next();
        match nx {
            Some(v) => {
                proof {
                    assert forall|d: int| 0 <= d < dims@.len() implies
                        (#[trigger] v@[d]) as int == decode(oi.iter_index(), dims@)[d] by {
                        assert(v@[d] == oi.current@[d]);
                        assert(oi.current@[d] as int == oi.step@[d]
                            * decode(oi.iter_index(), oi.grid())[d]);
                        assert(oi.step@[d] == 1);
                        assert(1 * decode(oi.iter_index(), oi.grid())[d]
                            == decode(oi.iter_index(), oi.grid())[d]) by (nonlinear_arith);
                    }
                    if !it.done {
                        crate::radix::lemma_encode_bound(it.digits(), it.grid());
                        assert(it.iter_index() <= it.total());
                    }
                }
                out.push(v);
            }
            None => {
                proof {
                    assert(false);
                }
            }
        }
    }
    out
}

/// All coordinate vectors of a shape's flattened extents, in row-major
/// order.
pub fn enumerate_coords(shape: &Tuple) -> (r: Vec<Vec<usize>>)
    requires
        shape@.leaves_pos(),
        shape@.size_spec() <= usize::MAX,
    ensures
        r@.len() == shape@.size_spec(),
        forall|k: int|
            0 <= k < r@.len() ==> (#[trigger] r@[k])@.len() == shape@.flat().len(),
        forall|k: int, d: int|
            0 <= k < r@.len() && 0 <= d < shape@.flat().len()
                ==> (#[trigger] r@[k]@[d]) as int == decode(k, shape@.flat())[d],
{
    proof {
        lemma_leaves_pos_flat(shape@);
        lemma_size_is_flat_prod(shape@);
    }
    let dims = shape.flatten();
    enumerate_int(&dims)
}

/// The inner product of a coordinate run with a stride run.
fn offset_dot(c: &Vec<usize>, s: &Vec<usize>) -> (r: usize)
    requires
        c@.len() == s@.len(),
        leaf_dot(c@, s@) <= usize::MAX,
    ensures
        r == leaf_dot(c@, s@),
{
    let mut acc: usize = 0;
    let mut i: usize = 0;
    while i < c.len()
        invariant
            c@.len() == s@.len(),
            leaf_dot(c@, s@) <= usize::MAX,
            0 <= i <= c@.len(),
            acc == leaf_dot(c@.take(i as int), s@.take(i as int)),
        decreases c.len() - i,
    {
        proof {
            lemma_leaf_dot_take(c@, s@, i as int);
            lemma_leaf_dot_prefix(c@, s@, i + 1);
            lemma_leaf_dot_nonneg(c@.take(i as int), s@.take(i as int));
        }
        acc = acc + c[i] * s[i];
        i = i + 1;
    }
    proof {
        assert(c@.take(c@.len() as int) =~= c@);
        assert(s@.take(s@.len() as int) =~= s@);
    }
    acc
}

/// Copy every element addressed by the source view to the position the
/// destination view assigns to the same coordinate.  The views must
/// share their shape; the destination's offsets must be pairwise
/// distinct so no cell is written twice.  Everything outside the
/// written positions is untouched.
pub fn tensor_copy<T: Copy>(
    src_t: &Tensor<T>,
    src: &TensorView,
    dst_t: &mut Tensor<T>,
    dst: &TensorViewMut,
)
    requires
        src.layout.shape@ == dst.layout.shape@,
        src.layout.shape@.leaves_pos(),
        src.layout.shape@.size_spec() <= usize::MAX,
        src.layout.stride@.flat().len() == src.layout.shape@.flat().len(),
        dst.layout.stride@.flat().len() == src.layout.shape@.flat().len(),
        forall|k: int|
            0 <= k < src.layout.shape@.size_spec() ==> src.offset + offset_at(
                src.layout.shape@.flat(),
                src.layout.stride@.flat(),
                k,
            ) < src_t.data@.len(),
        forall|k: int|
            0 <= k < src.layout.shape@.size_spec() ==> dst.offset + offset_at(
                src.layout.shape@.flat(),
                dst.layout.stride@.flat(),
                k,
            ) < old(dst_t).data@.len(),
        forall|k1: int, k2: int|
            0 <= k1 < k2 < src.layout.shape@.size_spec() ==> offset_at(
                src.layout.shape@.flat(),
                dst.layout.stride@.flat(),
                k1,
            ) != offset_at(src.layout.shape@.flat(), dst.layout.stride@.flat(), k2),
    ensures
        final(dst_t).layout == old(dst_t).layout,
        final(dst_t).data@.len() == old(dst_t).data@.len(),
        forall|k: int|
            0 <= k < src.layout.shape@.size_spec() ==> #[trigger] final(dst_t).data@[dst.offset
                + offset_at(src.layout.shape@.flat(), dst.layout.stride@.flat(), k)]
                == src_t.data@[src.offset + offset_at(
                src.layout.shape@.flat(),
                src.layout.stride@.flat(),
                k,
            )],
        forall|p: int|
            0 <= p < old(dst_t).data@.len() && (forall|k: int|
                0 <= k < src.layout.shape@.size_spec() ==> p != dst.offset + offset_at(
                    src.layout.shape@.flat(),
                    dst.layout.stride@.flat(),
                    k,
                )) ==> #[trigger] final(dst_t).data@[p] == old(dst_t).data@[p],
{
    let ghost shf = src.layout.shape@.flat();
    let ghost ssf = src.layout.stride@.flat();
    let ghost dsf = dst.layout.stride@.flat();
    let ghost size = src.layout.shape@.size_spec();
    let ghost d0 = old(dst_t).data@;
    let coords = enumerate_coords(&src.layout.shape.dims);
    let ssv = src.layout.stride.flatten();
    let dsv = dst.layout.stride.flatten();
    proof {
        lemma_size_is_flat_prod(src.layout.shape@);
        lemma_leaves_pos_flat(src.layout.shape@);
    }
    let n = coords.len();
    let sn = src_t.data.len();
    let dn = dst_t.data.len();
    let mut i: usize = 0;
    while i < n
        invariant
            coords@.len() == n,
            n == size,
            size == seq_prod(shf),
            shf == src.layout.shape@.flat(),
            ssf == src.layout.stride@.flat(),
            dsf == dst.layout.stride@.flat(),
            ssv@ == ssf,
            dsv@ == dsf,
            ssf.len() == shf.len(),
            dsf.len() == shf.len(),
            all_pos(shf),
            src_t.data@.len() == sn,
            d0.len() == dn,
            forall|k: int| 0 <= k < n ==> (#[trigger] coords@[k])@.len() == shf.len(),
            forall|k: int, d: int|
                0 <= k < n && 0 <= d < shf.len()
                    ==> (#[trigger] coords@[k]@[d]) as int == decode(k, shf)[d],
            forall|k: int|
                0 <= k < size ==> src.offset + offset_at(shf, ssf, k) < src_t.data@.len(),
            forall|k: int|
                0 <= k < size ==> dst.offset + offset_at(shf, dsf, k) < d0.len(),
            forall|k1: int, k2: int|
                0 <= k1 < k2 < size ==> offset_at(shf, dsf, k1) != offset_at(shf, dsf, k2),
            dst_t.layout == old(dst_t).layout,
            dst_t.data@.len() == d0.len(),
            0 <= i <= n,
            forall|k: int|
                0 <= k < i ==> #[trigger] dst_t.data@[dst.offset + offset_at(shf, dsf, k)]
                    == src_t.data@[src.offset + offset_at(shf, ssf, k)],
            forall|p: int|
                0 <= p < d0.len() && (forall|k: int|
                    0 <= k < i ==> p != dst.offset + offset_at(shf, dsf, k))
                    ==> #[trigger] dst_t.data@[p] == d0[p],
        decreases n - i,
    {
        let c = &coords[i];
        proof {
            crate::radix::lemma_decode_in_range(i as int, shf);
            assert(in_range(decode(i as int, shf), shf));
            lemma_leaf_dot_recompose(c@, decode(i as int, shf), ssv@);
            lemma_leaf_dot_recompose(c@, decode(i as int, shf), dsv@);
            assert(leaf_dot(c@, ssv@) == offset_at(shf, ssf, i as int));
            assert(leaf_dot(c@, dsv@) == offset_at(shf, dsf, i as int));
            assert(src.offset + offset_at(shf, ssf, i as int) < src_t.data@.len());
            assert(dst.offset + offset_at(shf, dsf, i as int) < d0.len());
            lemma_leaf_dot_nonneg(c@, ssv@);
            lemma_leaf_dot_nonneg(c@, dsv@);
        }
        let so = offset_dot(c, &ssv);
        let don = offset_dot(c, &dsv);
        let val = src_t.data[src.offset + so];
        let ghost prev = dst_t.data@;
        let idx = dst.offset + don;
        dst_t.data[idx] = val;
        proof {
            assert(dst_t.data@ == prev.update(idx as int, val));
            assert forall|k: int| 0 <= k < i + 1 implies
                #[trigger] dst_t.data@[dst.offset + offset_at(shf, dsf, k)]
                    == src_t.data@[src.offset + offset_at(shf, ssf, k)] by {
                if k == i {
                    assert(dst_t.data@[idx as int] == val);
                } else {
                    crate::radix::lemma_decode_in_range(k, shf);
                    lemma_leaf_dot_recompose((coords@[k])@, decode(k, shf), dsv@);
                    lemma_leaf_dot_nonneg((coords@[k])@, dsv@);
                    assert(0 <= offset_at(shf, dsf, k));
                    assert(offset_at(shf, dsf, k) != offset_at(shf, dsf, i as int));
                    assert(dst.offset + offset_at(shf, dsf, k) != idx);
                    assert(dst_t.data@[dst.offset + offset_at(shf, dsf, k)]
                        == prev[dst.offset + offset_at(shf, dsf, k)]);
                }
            }
            assert forall|p: int|
                0 <= p < d0.len() && (forall|k: int|
                    0 <= k < i + 1 ==> p != dst.offset + offset_at(shf, dsf, k))
                    implies #[trigger] dst_t.data@[p] == d0[p] by {
                assert(p != idx) by {
                    assert(p != dst.offset + offset_at(shf, dsf, i as int));
                }
                assert(dst_t.data@[p] == prev[p]);
                assert forall|k: int| 0 <= k < i implies
                    p != dst.offset + offset_at(shf, dsf, k) by {}
            }
        }
        i = i + 1;
    }
}

} // verus!
