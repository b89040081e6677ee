//! Owning tensors and zero-copy views.  A view is metadata only: a
//! base offset into the owning buffer plus a layout; every element
//! access routes through the owning tensor with checked indexing.

use vstd::prelude::*;
use crate::layout::{Layout, is_rm_flat};
use crate::shape::Shape;
use crate::tuple::{Tuple, TupleView};

verus! {

/// Owns a contiguous buffer together with the layout addressing it.
#[derive(Debug)]
pub struct Tensor<T> {
    pub data: Vec<T>,
    pub layout: Layout,
}

/// A non-owning read window: a base offset plus a layout.
#[derive(Debug)]
pub struct TensorView {
    pub offset: usize,
    pub layout: Layout,
}

/// A non-owning write window: the same metadata; writes go through the
/// owning tensor.
#[derive(Debug)]
pub struct TensorViewMut {
    pub offset: usize,
    pub layout: Layout,
}

impl<T> Tensor<T> {
    /// Wrap a buffer whose length matches the layout's size.
    pub fn new(data: Vec<T>, layout: Layout) -> (r: Tensor<T>)
        requires
            crate::tuple::size_ok(layout.shape@),
            data@.len() == layout.shape@.size_spec(),
        ensures
            r.data@ == data@,
            r.layout == layout,
    {
        let n = layout.size();
        Tensor { data, layout }
    }

    /// The layout of the tensor.
    pub fn layout(&self) -> (r: &Layout)
        ensures
            *r == self.layout,
    {
        &self.layout
    }

    /// The backing buffer.
    pub fn data(&self) -> (r: &Vec<T>)
        ensures
            r@ == self.data@,
    {
        &self.data
    }

    /// A read view of the whole tensor: the layout's metadata at
    /// offset zero.
    pub fn as_view(&self) -> (r: TensorView)
        ensures
            r.offset == 0,
            r.layout.shape@ == self.layout.shape@,
            r.layout.stride@ == self.layout.stride@,
            r.layout.contig == self.layout.contig,
    {
        TensorView { offset: 0, layout: self.layout.clone() }
    }

    /// A write view of the whole tensor: the layout's metadata at
    /// offset zero.
    pub fn as_view_mut(&self) -> (r: TensorViewMut)
        ensures
            r.offset == 0,
            r.layout.shape@ == self.layout.shape@,
            r.layout.stride@ == self.layout.stride@,
            r.layout.contig == self.layout.contig,
    {
        TensorViewMut { offset: 0, layout: self.layout.clone() }
    }
}

impl Clone for TensorView {
    /// A clone has the same offset and layout.
    fn clone(&self) -> (r: TensorView)
        ensures
            r.offset == self.offset,
            r.layout.shape@ == self.layout.shape@,
            r.layout.stride@ == self.layout.stride@,
            r.layout.contig == self.layout.contig,
    {
        TensorView { offset: self.offset, layout: self.layout.clone() }
    }
}

impl Clone for TensorViewMut {
    /// A clone has the same offset and layout.
    fn clone(&self) -> (r: TensorViewMut)
        ensures
            r.offset == self.offset,
            r.layout.shape@ == self.layout.shape@,
            r.layout.stride@ == self.layout.stride@,
            r.layout.contig == self.layout.contig,
    {
        TensorViewMut { offset: self.offset, layout: self.layout.clone() }
    }
}

impl TensorView {
    /// The layout of the view.
    pub fn layout(&self) -> (r: &Layout)
        ensures
            *r == self.layout,
    {
        &self.layout
    }

    /// Read the element the coordinate addresses, from the owning
    /// tensor.
    pub fn get<'a, T>(&self, t: &'a Tensor<T>, crd: &Tuple) -> (r: &'a T)
        requires
            crd@.congruent(self.layout.stride@),
            crd@.dot_spec(self.layout.stride@) <= usize::MAX,
            self.offset + crd@.dot_spec(self.layout.stride@) < t.data@.len(),
        ensures
            *r == t.data@[self.offset + crd@.dot_spec(self.layout.stride@)],
    {
        let idx = self.layout.crd2idx(crd);
        let n = t.data.len();
        proof {
            assert(self.offset + idx < n);
        }
        &t.data[self.offset + idx]
    }

    /// A window at `start` with the given sub-shape, inheriting this
    /// view's stride tree; the base offset moves by the start
    /// coordinate's linear offset.
    pub fn subview(&self, start: &Tuple, sub_shape: &Shape) -> (r: TensorView)
        requires
            start@.congruent(self.layout.stride@),
            start@.dot_spec(self.layout.stride@) <= usize::MAX,
            self.offset + start@.dot_spec(self.layout.stride@) <= usize::MAX,
            sub_shape@.leaves_pos(),
            sub_shape@.size_spec() <= usize::MAX,
            sub_shape@.flat().len() == self.layout.stride@.flat().len(),
        ensures
            r.offset == self.offset + start@.dot_spec(self.layout.stride@),
            r.layout.shape@ == sub_shape@,
            r.layout.stride@ == self.layout.stride@,
            r.layout.contig == is_rm_flat(self.layout.stride@.flat(), sub_shape@.flat()),
    {
        let off = self.layout.crd2idx(start);
        let sub_layout = Layout::with_shape_stride(sub_shape.clone(), self.layout.stride.clone());
        TensorView { offset: self.offset + off, layout: sub_layout }
    }

    /// The two-dimensional special case of `subview`: a window of
    /// `r x c` elements starting at row `r0`, column `c0`.
    pub fn subview_2d(&self, r0: usize, c0: usize, r: usize, c: usize) -> (res: TensorView)
        requires
            pair_view(r0, c0).congruent(self.layout.stride@),
            pair_view(r0, c0).dot_spec(self.layout.stride@) <= usize::MAX,
            self.offset + pair_view(r0, c0).dot_spec(self.layout.stride@) <= usize::MAX,
            1 <= r,
            1 <= c,
            r * c <= usize::MAX,
        ensures
            res.offset == self.offset + pair_view(r0, c0).dot_spec(self.layout.stride@),
            res.layout.shape@ == pair_view(r, c),
            res.layout.stride@ == self.layout.stride@,
    {
        let start = pair_tuple(r0, c0);
        let shape = Shape::new(pair_tuple(r, c));
        proof {
            lemma_pair_view_facts(r, c);
            lemma_pair_view_facts(r0, c0);
            crate::tuple::lemma_congruent_flat_len(pair_view(r0, c0), self.layout.stride@);
        }
        self.subview(&start, &shape)
    }
}

impl TensorViewMut {
    /// The layout of the view.
    pub fn layout(&self) -> (r: &Layout)
        ensures
            *r == self.layout,
    {
        &self.layout
    }

    /// Read the element the coordinate addresses, from the owning
    /// tensor.
    pub fn get<'a, T>(&self, t: &'a Tensor<T>, crd: &Tuple) -> (r: &'a T)
        requires
            crd@.congruent(self.layout.stride@),
            crd@.dot_spec(self.layout.stride@) <= usize::MAX,
            self.offset + crd@.dot_spec(self.layout.stride@) < t.data@.len(),
        ensures
            *r == t.data@[self.offset + crd@.dot_spec(self.layout.stride@)],
    {
        let idx = self.layout.crd2idx(crd);
        let n = t.data.len();
        proof {
            assert(self.offset + idx < n);
        }
        &t.data[self.offset + idx]
    }

    /// Write the element the coordinate addresses, in the owning
    /// tensor; everything else is untouched.
    pub fn write<T>(&self, t: &mut Tensor<T>, crd: &Tuple, val: T)
        requires
            crd@.congruent(self.layout.stride@),
            crd@.dot_spec(self.layout.stride@) <= usize::MAX,
            self.offset + crd@.dot_spec(self.layout.stride@) < old(t).data@.len(),
        ensures
            final(t).data@ == old(t).data@.update(
                self.offset + crd@.dot_spec(self.layout.stride@),
                val,
            ),
            final(t).layout == old(t).layout,
    {
        let idx = self.layout.crd2idx(crd);
        let n = t.data.len();
        proof {
            assert(self.offset + idx < n);
        }
        let i = self.offset + idx;
        t.data[i] = val;
    }

    /// A window at `start` with the given sub-shape, inheriting this
    /// view's stride tree.
    pub fn subview_mut(&self, start: &Tuple, sub_shape: &Shape) -> (r: TensorViewMut)
        requires
            start@.congruent(self.layout.stride@),
            start@.dot_spec(self.layout.stride@) <= usize::MAX,
            self.offset + start@.dot_spec(self.layout.stride@) <= usize::MAX,
            sub_shape@.leaves_pos(),
            sub_shape@.size_spec() <= usize::MAX,
            sub_shape@.flat().len() == self.layout.stride@.flat().len(),
        ensures
            r.offset == self.offset + start@.dot_spec(self.layout.stride@),
            r.layout.shape@ == sub_shape@,
            r.layout.stride@ == self.layout.stride@,
            r.layout.contig == is_rm_flat(self.layout.stride@.flat(), sub_shape@.flat()),
    {
        let off = self.layout.crd2idx(start);
        let sub_layout = Layout::with_shape_stride(sub_shape.clone(), self.layout.stride.clone());
        TensorViewMut { offset: self.offset + off, layout: sub_layout }
    }

    /// The two-dimensional special case of `subview_mut`.
    pub fn subview_2d_mut(&self, r0: usize, c0: usize, r: usize, c: usize) -> (res: TensorViewMut)
        requires
            pair_view(r0, c0).congruent(self.layout.stride@),
            pair_view(r0, c0).dot_spec(self.layout.stride@) <= usize::MAX,
            self.offset + pair_view(r0, c0).dot_spec(self.layout.stride@) <= usize::MAX,
            1 <= r,
            1 <= c,
            r * c <= usize::MAX,
        ensures
            res.offset == self.offset + pair_view(r0, c0).dot_spec(self.layout.stride@),
            res.layout.shape@ == pair_view(r, c),
            res.layout.stride@ == self.layout.stride@,
    {
        let start = pair_tuple(r0, c0);
        let shape = Shape::new(pair_tuple(r, c));
        proof {
            lemma_pair_view_facts(r, c);
            lemma_pair_view_facts(r0, c0);
            crate::tuple::lemma_congruent_flat_len(pair_view(r0, c0), self.layout.stride@);
        }
        self.subview_mut(&start, &shape)
    }
}

/// The model of a two-mode coordinate or shape `(a, b)`.
pub open spec fn pair_view(a: usize, b: usize) -> TupleView {
    TupleView::Node(seq![TupleView::Leaf(seq![a]), TupleView::Leaf(seq![b])])
}

proof fn lemma_pair_view_facts(a: usize, b: usize)
    ensures
        pair_view(a, b).flat() =~= seq![a, b],
        pair_view(a, b).size_spec() == a * b,
        1 <= a && 1 <= b ==> pair_view(a, b).leaves_pos(),
{
    let pv = pair_view(a, b);
    let vs = seq![TupleView::Leaf(seq![a]), TupleView::Leaf(seq![b])];
    assert(vs[0] == TupleView::Leaf(seq![a]));
    assert(vs[1] == TupleView::Leaf(seq![b]));
    assert(TupleView::Leaf(seq![a]).flat() =~= seq![a]);
    assert(TupleView::Leaf(seq![b]).flat() =~= seq![b]);
    assert(vs.take(0) =~= Seq::<TupleView>::empty());
    assert(crate::tuple::flat_cat(Seq::<TupleView>::empty()) =~= Seq::<usize>::empty());
    crate::tuple::lemma_flat_cat_take_succ(vs, 0);
    crate::tuple::lemma_flat_cat_take_succ(vs, 1);
    assert(vs.take(2) =~= vs);
    assert(pv.flat() =~= seq![a, b]);
    // the size is the product of the two entries
    assert(crate::radix::seq_prod(seq![a].drop_first()) == 1) by {
        assert(seq![a].drop_first().len() == 0);
    }
    assert(crate::radix::seq_prod(seq![a]) == a * 1);
    assert(a * 1 == a) by (nonlinear_arith);
    assert(crate::radix::seq_prod(seq![b].drop_first()) == 1) by {
        assert(seq![b].drop_first().len() == 0);
    }
    assert(crate::radix::seq_prod(seq![b]) == b * 1);
    assert(b * 1 == b) by (nonlinear_arith);
    assert(TupleView::Leaf(seq![a]).size_spec() == a);
    assert(TupleView::Leaf(seq![b]).size_spec() == b);
    assert(crate::tuple::sizes_prod(Seq::<TupleView>::empty()) == 1);
    crate::tuple::lemma_sizes_prod_take_succ(vs, 0);
    crate::tuple::lemma_sizes_prod_take_succ(vs, 1);
    assert(crate::tuple::sizes_prod(vs.take(1)) == 1 * (a as int));
    assert(1 * (a as int) == a as int) by (nonlinear_arith);
    assert(crate::tuple::sizes_prod(vs) == (a as int) * (b as int));
    if 1 <= a && 1 <= b {
        assert(crate::radix::all_pos(seq![a]));
        assert(crate::radix::all_pos(seq![b]));
        assert forall|i: int| 0 <= i < vs.len() implies (#[trigger] vs[i]).leaves_pos() by {
            if i == 0 {
                assert(vs[0] == TupleView::Leaf(seq![a]));
            } else {
                assert(vs[1] == TupleView::Leaf(seq![b]));
            }
        }
        crate::tuple::lemma_nodes_pos_intro(vs);
    }
}

/// Build the two-mode tuple `(a, b)`.
fn pair_tuple(a: usize, b: usize) -> (r: Tuple)
    ensures
        r@ == pair_view(a, b),
{
    let mut kids: Vec<Tuple> = Vec::new();
    kids.push(Tuple::int1(a));
    kids.push(Tuple::int1(b));
    proof {
        crate::tuple::lemma_node_views_len(kids@);
        crate::tuple::lemma_node_views_index(kids@, 0);
        crate::tuple::lemma_node_views_index(kids@, 1);
        assert(crate::tuple::node_views(kids@)
            =~= seq![TupleView::Leaf(seq![a]), TupleView::Leaf(seq![b])]);
    }
    Tuple::tup(kids)
}

} // verus!
