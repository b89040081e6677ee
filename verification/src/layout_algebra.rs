//! Pure transforms from a layout and a tiler layout to a derived
//! row-major layout describing the same tile/grid decomposition at
//! progressively flatter granularities.

use vstd::prelude::*;
use crate::radix::{seq_prod, all_pos, quot_seq, lemma_quot_prod_le, lemma_seq_prod_concat};
use crate::shape::Shape;
use crate::layout::{Layout, RowMajor, is_rm_flat};
use crate::tuple::{Tuple, TupleView, node_views, nodes_congruent, flat_cat, sizes_prod,
    lemma_node_views_len, lemma_node_views_index, lemma_flat_cat_split, lemma_flat_cat_head,
    lemma_flat_cat_take_succ, lemma_congruent_flat_len, lemma_congruent_flat_len_seq,
    lemma_nodes_congruent_parts, lemma_nodes_congruent_index, lemma_leaves_pos_flat,
    lemma_size_is_flat_prod, lemma_nodes_pos_intro, lemma_node_views_concat,
    lemma_sizes_prod_head};

verus! {

/// Each matched extent pair `(L, T)` of a leaf becomes the two-entry
/// leaf `(T, L - T)`.
pub open spec fn split_leaf(ld: Seq<usize>, td: Seq<usize>) -> Seq<TupleView> {
    Seq::new(ld.len(), |i: int| TupleView::Leaf(seq![td[i], (ld[i] - td[i]) as usize]))
}

/// The shape produced by `logical_divide`: every dimension split into
/// its inside-tile and remainder parts.
pub open spec fn logical_divide_view(l: TupleView, t: TupleView) -> TupleView
    decreases l,
{
    match (l, t) {
        (TupleView::Leaf(ld), TupleView::Leaf(td)) => TupleView::Node(split_leaf(ld, td)),
        (TupleView::Node(lv), TupleView::Node(tv)) => TupleView::Node(ld_children(lv, tv)),
        _ => TupleView::Leaf(Seq::empty()),
    }
}

pub open spec fn ld_children(lv: Seq<TupleView>, tv: Seq<TupleView>) -> Seq<TupleView>
    decreases lv,
{
    if lv.len() == 0 {
        Seq::empty()
    } else {
        ld_children(lv.drop_last(), tv.drop_last()).push(
            logical_divide_view(lv.last(), tv.last()),
        )
    }
}

/// The "rest" tree of `zipped_divide`: the layout's structure with
/// every extent replaced by its integer quotient against the tiler.
pub open spec fn rest_view(l: TupleView, t: TupleView) -> TupleView
    decreases l,
{
    match (l, t) {
        (TupleView::Leaf(ld), TupleView::Leaf(td)) => TupleView::Leaf(quot_seq(ld, td)),
        (TupleView::Node(lv), TupleView::Node(tv)) => TupleView::Node(rest_children(lv, tv)),
        _ => TupleView::Leaf(Seq::empty()),
    }
}

pub open spec fn rest_children(lv: Seq<TupleView>, tv: Seq<TupleView>) -> Seq<TupleView>
    decreases lv,
{
    if lv.len() == 0 {
        Seq::empty()
    } else {
        rest_children(lv.drop_last(), tv.drop_last()).push(rest_view(lv.last(), tv.last()))
    }
}

/// The shape produced by `zipped_divide`: the verbatim tile tree beside
/// the quotient tree.
pub open spec fn zipped_view(l: TupleView, t: TupleView) -> TupleView {
    TupleView::Node(seq![t, rest_view(l, t)])
}

/// The rest part flattened by one level, as used by `tiled_divide`.
pub open spec fn tiled_kids(l: TupleView, t: TupleView) -> Seq<TupleView> {
    match rest_view(l, t) {
        TupleView::Node(cs) => cs,
        r => seq![r],
    }
}

/// The shape produced by `tiled_divide`: `(tile, rest0, rest1, ...)`.
pub open spec fn tiled_view(l: TupleView, t: TupleView) -> TupleView {
    TupleView::Node(seq![t] + tiled_kids(l, t))
}

/// The shape produced by `flat_divide`: one flat leaf holding the tile
/// extents followed by the grid quotients.
pub open spec fn flat_divide_view(l: TupleView, t: TupleView) -> TupleView {
    TupleView::Leaf(t.flat() + quot_seq(l.flat(), t.flat()))
}

/// The quotient tree is congruent with the layout's shape and flattens
/// to the pointwise quotients.
pub proof fn lemma_rest_view_shape(l: TupleView, t: TupleView)
    requires
        t.congruent(l),
    ensures
        rest_view(l, t).congruent(l),
        rest_view(l, t).flat() =~= quot_seq(l.flat(), t.flat()),
    decreases l,
{
    lemma_congruent_flat_len(t, l);
    match (l, t) {
        (TupleView::Leaf(ld), TupleView::Leaf(td)) => {}
        (TupleView::Node(lv), TupleView::Node(tv)) => {
            lemma_rest_children_shape(lv, tv);
        }
        _ => {}
    }
}

pub proof fn lemma_rest_children_shape(lv: Seq<TupleView>, tv: Seq<TupleView>)
    requires
        nodes_congruent(tv, lv),
    ensures
        rest_children(lv, tv).len() == lv.len(),
        nodes_congruent(rest_children(lv, tv), lv),
        flat_cat(rest_children(lv, tv)) =~= quot_seq(flat_cat(lv), flat_cat(tv)),
    decreases lv,
{
    if lv.len() == 0 {
    } else {
        lemma_rest_children_shape(lv.drop_last(), tv.drop_last());
        lemma_rest_view_shape(lv.last(), tv.last());
        lemma_congruent_flat_len(tv.last(), lv.last());
        lemma_congruent_flat_len_seq(tv.drop_last(), lv.drop_last());
        assert(rest_children(lv, tv).drop_last() =~= rest_children(lv.drop_last(), tv.drop_last()));
        assert(rest_children(lv, tv).last() == rest_view(lv.last(), tv.last()));
        assert(flat_cat(lv) == flat_cat(lv.drop_last()) + lv.last().flat());
        assert(flat_cat(tv) == flat_cat(tv.drop_last()) + tv.last().flat());
    }
}

/// Builds the quotient tree for `zipped_divide` and its relatives.
fn quot_tuple(l: &Tuple, t: &Tuple) -> (r: Tuple)
    requires
        t@.congruent(l@),
        forall|d: int|
            0 <= d < t@.flat().len() ==> (1 <= #[trigger] t@.flat()[d]
                && t@.flat()[d] <= l@.flat()[d]),
    ensures
        r@ == rest_view(l@, t@),
    decreases *l,
{
    match (l, t) {
        (Tuple::Int(ld), Tuple::Int(td)) => {
            let mut out: Vec<usize> = Vec::new();
            let mut i: usize = 0;
            proof {
                lemma_congruent_flat_len(t@, l@);
            }
            while i < ld.len()
                invariant
                    *l == Tuple::Int(*ld),
                    *t == Tuple::Int(*td),
                    l@ == TupleView::Leaf(ld@),
                    t@ == TupleView::Leaf(td@),
                    ld@.len() == td@.len(),
                    forall|d: int|
                        0 <= d < td@.len() ==> (1 <= #[trigger] td@[d] && td@[d] <= ld@[d]),
                    0 <= i <= ld.len(),
                    out@ =~= quot_seq(ld@, td@).take(i as int),
                decreases ld.len() - i,
            {
                out.push(ld[i] / td[i]);
                assert(out@ =~= quot_seq(ld@, td@).take(i + 1));
                i = i + 1;
            }
            proof {
                assert(quot_seq(ld@, td@).take(ld@.len() as int) =~= quot_seq(ld@, td@));
            }
            Tuple::Int(out)
        }
        (Tuple::Tup(lv), Tuple::Tup(tv)) => {
            let ghost slv = node_views(lv@);
            let ghost stv = node_views(tv@);
            let mut out: Vec<Tuple> = Vec::new();
            let mut i: usize = 0;
            proof {
                lemma_node_views_len(lv@);
                lemma_node_views_len(tv@);
                lemma_rest_children_len(slv, stv);
            }
            while i < lv.len()
                invariant
                    *l == Tuple::Tup(*lv),
                    *t == Tuple::Tup(*tv),
                    l@ == TupleView::Node(slv),
                    t@ == TupleView::Node(stv),
                    slv == node_views(lv@),
                    stv == node_views(tv@),
                    slv.len() == lv@.len(),
                    stv.len() == tv@.len(),
                    nodes_congruent(stv, slv),
                    forall|d: int|
                        0 <= d < t@.flat().len() ==> (1 <= #[trigger] t@.flat()[d]
                            && t@.flat()[d] <= l@.flat()[d]),
                    0 <= i <= lv.len(),
                    out@.len() == i,
                    node_views(out@) =~= rest_children(slv, stv).take(i as int),
                    rest_children(slv, stv).len() == slv.len(),
                decreases lv.len() - i,
            {
                proof {
                    assert(decreases_to!(*l => l->Tup_0));
                    assert(l->Tup_0 == *lv);
                    assert(decreases_to!(*lv => lv@));
                    assert(decreases_to!(lv@ => lv@[i as int]));
                    assert(decreases_to!(*l => lv@[i as int]));
                    lemma_node_views_index(lv@, i as int);
                    lemma_node_views_index(tv@, i as int);
                    lemma_nodes_congruent_index(stv, slv, i as int);
                    // the child's flat conditions sit inside the parent's runs
                    lemma_nodes_congruent_parts(stv, slv, i as int);
                    lemma_congruent_flat_len_seq(stv.take(i as int), slv.take(i as int));
                    lemma_congruent_flat_len(stv[i as int], slv[i as int]);
                    lemma_flat_cat_split(stv, i as int);
                    lemma_flat_cat_head(stv.skip(i as int));
                    assert(stv.skip(i as int)[0] == stv[i as int]);
                    assert(stv.skip(i as int).drop_first() =~= stv.skip(i + 1));
                    lemma_flat_cat_split(slv, i as int);
                    lemma_flat_cat_head(slv.skip(i as int));
                    assert(slv.skip(i as int)[0] == slv[i as int]);
                    assert(slv.skip(i as int).drop_first() =~= slv.skip(i + 1));
                    let off = flat_cat(stv.take(i as int)).len();
                    assert(flat_cat(stv) =~= flat_cat(stv.take(i as int))
                        + (stv[i as int].flat() + flat_cat(stv.skip(i + 1))));
                    assert(flat_cat(slv) =~= flat_cat(slv.take(i as int))
                        + (slv[i as int].flat() + flat_cat(slv.skip(i + 1))));
                    assert forall|d: int| 0 <= d < stv[i as int].flat().len() implies
                        (1 <= #[trigger] stv[i as int].flat()[d]
                            && stv[i as int].flat()[d] <= slv[i as int].flat()[d]) by {
                        assert(t@.flat()[off + d] == stv[i as int].flat()[d]);
                        assert(l@.flat()[off + d] == slv[i as int].flat()[d]);
                    }
                }
                let c = quot_tuple(&lv[i], &tv[i]);
                let ghost prev = out@;
                out.push(c);
                proof {
                    assert(out@.drop_last() =~= prev);
                    assert(node_views(out@) == node_views(prev).push(c@));
                    assert(node_views(out@).drop_last() =~= node_views(prev));
                    assert(rest_children(slv, stv).take(i + 1).drop_last()
                        =~= rest_children(slv, stv).take(i as int));
                    assert(rest_children(slv, stv).take(i + 1).last()
                        == rest_children(slv, stv)[i as int]);
                    lemma_rest_children_index(slv, stv, i as int);
                    assert(node_views(out@) =~= rest_children(slv, stv).take(i + 1));
                }
                i = i + 1;
            }
            proof {
                assert(rest_children(slv, stv).take(slv.len() as int)
                    =~= rest_children(slv, stv));
            }
            Tuple::Tup(out)
        }
        _ => {
            proof {
                assert(false);
            }
            Tuple::Int(Vec::new())
        }
    }
}

pub proof fn lemma_rest_children_index(lv: Seq<TupleView>, tv: Seq<TupleView>, i: int)
    requires
        lv.len() == tv.len(),
        0 <= i < lv.len(),
    ensures
        rest_children(lv, tv).len() == lv.len(),
        rest_children(lv, tv)[i] == rest_view(lv[i], tv[i]),
    decreases lv,
{
    lemma_rest_children_len(lv, tv);
    if i < lv.len() - 1 {
        lemma_rest_children_index(lv.drop_last(), tv.drop_last(), i);
        assert(lv.drop_last()[i] == lv[i]);
        assert(tv.drop_last()[i] == tv[i]);
    }
}

pub proof fn lemma_rest_children_len(lv: Seq<TupleView>, tv: Seq<TupleView>)
    requires
        lv.len() == tv.len(),
    ensures
        rest_children(lv, tv).len() == lv.len(),
    decreases lv,
{
    if lv.len() > 0 {
        lemma_rest_children_len(lv.drop_last(), tv.drop_last());
    }
}

pub proof fn lemma_ld_children_len(lv: Seq<TupleView>, tv: Seq<TupleView>)
    requires
        lv.len() == tv.len(),
    ensures
        ld_children(lv, tv).len() == lv.len(),
    decreases lv,
{
    if lv.len() > 0 {
        lemma_ld_children_len(lv.drop_last(), tv.drop_last());
    }
}

pub proof fn lemma_ld_children_index(lv: Seq<TupleView>, tv: Seq<TupleView>, i: int)
    requires
        lv.len() == tv.len(),
        0 <= i < lv.len(),
    ensures
        ld_children(lv, tv).len() == lv.len(),
        ld_children(lv, tv)[i] == logical_divide_view(lv[i], tv[i]),
    decreases lv,
{
    lemma_ld_children_len(lv, tv);
    if i < lv.len() - 1 {
        lemma_ld_children_index(lv.drop_last(), tv.drop_last(), i);
        assert(lv.drop_last()[i] == lv[i]);
        assert(tv.drop_last()[i] == tv[i]);
    }
}

/// The split shape has positive leaves whenever every tile extent is
/// positive and strictly below its layout extent.
pub proof fn lemma_ld_pos(l: TupleView, t: TupleView)
    requires
        t.congruent(l),
        forall|d: int|
            0 <= d < t.flat().len() ==> (1 <= #[trigger] t.flat()[d]
                && t.flat()[d] < l.flat()[d]),
    ensures
        logical_divide_view(l, t).leaves_pos(),
    decreases l,
{
    lemma_congruent_flat_len(t, l);
    match (l, t) {
        (TupleView::Leaf(ld), TupleView::Leaf(td)) => {
            assert forall|i: int| 0 <= i < split_leaf(ld, td).len() implies
                (#[trigger] split_leaf(ld, td)[i]).leaves_pos() by {
                assert(split_leaf(ld, td)[i] == TupleView::Leaf(seq![
                    td[i],
                    (ld[i] - td[i]) as usize,
                ]));
                assert(1 <= td[i] && td[i] < ld[i]);
                assert(crate::radix::all_pos(seq![td[i], (ld[i] - td[i]) as usize]));
            }
            lemma_nodes_pos_intro(split_leaf(ld, td));
        }
        (TupleView::Node(lv), TupleView::Node(tv)) => {
            lemma_ld_children_len(lv, tv);
            assert forall|i: int| 0 <= i < ld_children(lv, tv).len() implies
                (#[trigger] ld_children(lv, tv)[i]).leaves_pos() by {
                lemma_ld_children_index(lv, tv, i);
                lemma_nodes_congruent_index(tv, lv, i);
                lemma_nodes_congruent_parts(tv, lv, i);
                lemma_congruent_flat_len_seq(tv.take(i), lv.take(i));
                lemma_congruent_flat_len(tv[i], lv[i]);
                lemma_flat_cat_split(tv, i);
                lemma_flat_cat_head(tv.skip(i));
                assert(tv.skip(i)[0] == tv[i]);
                assert(tv.skip(i).drop_first() =~= tv.skip(i + 1));
                lemma_flat_cat_split(lv, i);
                lemma_flat_cat_head(lv.skip(i));
                assert(lv.skip(i)[0] == lv[i]);
                assert(lv.skip(i).drop_first() =~= lv.skip(i + 1));
                let off = flat_cat(tv.take(i)).len();
                assert(flat_cat(tv) =~= flat_cat(tv.take(i))
                    + (tv[i].flat() + flat_cat(tv.skip(i + 1))));
                assert(flat_cat(lv) =~= flat_cat(lv.take(i))
                    + (lv[i].flat() + flat_cat(lv.skip(i + 1))));
                assert forall|d: int| 0 <= d < tv[i].flat().len() implies
                    (1 <= #[trigger] tv[i].flat()[d]
                        && tv[i].flat()[d] < lv[i].flat()[d]) by {
                    assert(t.flat()[off + d] == tv[i].flat()[d]);
                    assert(l.flat()[off + d] == lv[i].flat()[d]);
                }
                assert(decreases_to!(l => lv));
                assert(decreases_to!(lv => lv[i]));
                lemma_ld_pos(lv[i], tv[i]);
            }
            lemma_nodes_pos_intro(ld_children(lv, tv));
        }
        _ => {}
    }
}

/// Builds the split shape for `logical_divide`.
fn ld_tuple(l: &Tuple, t: &Tuple) -> (r: Tuple)
    requires
        t@.congruent(l@),
        forall|d: int|
            0 <= d < t@.flat().len() ==> (1 <= #[trigger] t@.flat()[d]
                && t@.flat()[d] <= l@.flat()[d]),
    ensures
        r@ == logical_divide_view(l@, t@),
    decreases *l,
{
    match (l, t) {
        (Tuple::Int(ld), Tuple::Int(td)) => {
            let mut out: Vec<Tuple> = Vec::new();
            let mut i: usize = 0;
            proof {
                lemma_congruent_flat_len(t@, l@);
            }
            while i < ld.len()
                invariant
                    *l == Tuple::Int(*ld),
                    *t == Tuple::Int(*td),
                    l@ == TupleView::Leaf(ld@),
                    t@ == TupleView::Leaf(td@),
                    ld@.len() == td@.len(),
                    forall|d: int|
                        0 <= d < td@.len() ==> (1 <= #[trigger] td@[d] && td@[d] <= ld@[d]),
                    0 <= i <= ld.len(),
                    node_views(out@) =~= split_leaf(ld@, td@).take(i as int),
                decreases ld.len() - i,
            {
                let mut pair: Vec<usize> = Vec::new();
                pair.push(td[i]);
                pair.push(ld[i] - td[i]);
                proof {
                    assert(pair@ =~= seq![td@[i as int], (ld@[i as int] - td@[i as int]) as usize]);
                }
                let c = Tuple::Int(pair);
                let ghost prev = out@;
                out.push(c);
                proof {
                    assert(out@.drop_last() =~= prev);
                    assert(node_views(out@) == node_views(prev).push(c@));
                    assert(node_views(out@).drop_last() =~= node_views(prev));
                    assert(split_leaf(ld@, td@).take(i + 1).drop_last()
                        =~= split_leaf(ld@, td@).take(i as int));
                    assert(split_leaf(ld@, td@).take(i + 1).last()
                        == split_leaf(ld@, td@)[i as int]);
                    assert(node_views(out@) =~= split_leaf(ld@, td@).take(i + 1));
                }
                i = i + 1;
            }
            proof {
                assert(split_leaf(ld@, td@).take(ld@.len() as int) =~= split_leaf(ld@, td@));
            }
            Tuple::Tup(out)
        }
        (Tuple::Tup(lv), Tuple::Tup(tv)) => {
            let ghost slv = node_views(lv@);
            let ghost stv = node_views(tv@);
            let mut out: Vec<Tuple> = Vec::new();
            let mut i: usize = 0;
            proof {
                lemma_node_views_len(lv@);
                lemma_node_views_len(tv@);
                lemma_ld_children_len(slv, stv);
            }
            while i < lv.len()
                invariant
                    *l == Tuple::Tup(*lv),
                    *t == Tuple::Tup(*tv),
                    l@ == TupleView::Node(slv),
                    t@ == TupleView::Node(stv),
                    slv == node_views(lv@),
                    stv == node_views(tv@),
                    slv.len() == lv@.len(),
                    stv.len() == tv@.len(),
                    nodes_congruent(stv, slv),
                    forall|d: int|
                        0 <= d < t@.flat().len() ==> (1 <= #[trigger] t@.flat()[d]
                            && t@.flat()[d] <= l@.flat()[d]),
                    0 <= i <= lv.len(),
                    out@.len() == i,
                    node_views(out@) =~= ld_children(slv, stv).take(i as int),
                    ld_children(slv, stv).len() == slv.len(),
                decreases lv.len() - i,
            {
                proof {
                    assert(decreases_to!(*l => l->Tup_0));
                    assert(l->Tup_0 == *lv);
                    assert(decreases_to!(*lv => lv@));
                    assert(decreases_to!(lv@ => lv@[i as int]));
                    assert(decreases_to!(*l => lv@[i as int]));
                    lemma_node_views_index(lv@, i as int);
                    lemma_node_views_index(tv@, i as int);
                    lemma_nodes_congruent_index(stv, slv, i as int);
                    lemma_nodes_congruent_parts(stv, slv, i as int);
                    lemma_congruent_flat_len_seq(stv.take(i as int), slv.take(i as int));
                    lemma_congruent_flat_len(stv[i as int], slv[i as int]);
                    lemma_flat_cat_split(stv, i as int);
                    lemma_flat_cat_head(stv.skip(i as int));
                    assert(stv.skip(i as int)[0] == stv[i as int]);
                    assert(stv.skip(i as int).drop_first() =~= stv.skip(i + 1));
                    lemma_flat_cat_split(slv, i as int);
                    lemma_flat_cat_head(slv.skip(i as int));
                    assert(slv.skip(i as int)[0] == slv[i as int]);
                    assert(slv.skip(i as int).drop_first() =~= slv.skip(i + 1));
                    let off = flat_cat(stv.take(i as int)).len();
                    assert(flat_cat(stv) =~= flat_cat(stv.take(i as int))
                        + (stv[i as int].flat() + flat_cat(stv.skip(i + 1))));
                    assert(flat_cat(slv) =~= flat_cat(slv.take(i as int))
                        + (slv[i as int].flat() + flat_cat(slv.skip(i + 1))));
                    assert forall|d: int| 0 <= d < stv[i as int].flat().len() implies
                        (1 <= #[trigger] stv[i as int].flat()[d]
                            && stv[i as int].flat()[d] <= slv[i as int].flat()[d]) by {
                        assert(t@.flat()[off + d] == stv[i as int].flat()[d]);
                        assert(l@.flat()[off + d] == slv[i as int].flat()[d]);
                    }
                }
                let c = ld_tuple(&lv[i], &tv[i]);
                let ghost prev = out@;
                out.push(c);
                proof {
                    assert(out@.drop_last() =~= prev);
                    assert(node_views(out@) == node_views(prev).push(c@));
                    assert(node_views(out@).drop_last() =~= node_views(prev));
                    assert(ld_children(slv, stv).take(i + 1).drop_last()
                        =~= ld_children(slv, stv).take(i as int));
                    assert(ld_children(slv, stv).take(i + 1).last()
                        == ld_children(slv, stv)[i as int]);
                    lemma_ld_children_index(slv, stv, i as int);
                    assert(node_views(out@) =~= ld_children(slv, stv).take(i + 1));
                }
                i = i + 1;
            }
            proof {
                assert(ld_children(slv, stv).take(slv.len() as int) =~= ld_children(slv, stv));
            }
            Tuple::Tup(out)
        }
        _ => {
            proof {
                assert(false);
            }
            Tuple::Int(Vec::new())
        }
    }
}

/// Split every dimension of the layout into its inside-tile part and
/// its remainder part, restriped row-major: `(L, T)` becomes
/// `(T, L - T)` at each matched position.
pub fn logical_divide(layout: &Layout, tiler: &Layout) -> (r: Layout)
    requires
        tiler.shape@.congruent(layout.shape@),
        forall|d: int|
            0 <= d < tiler.shape@.flat().len() ==> (1 <= #[trigger] tiler.shape@.flat()[d]
                && tiler.shape@.flat()[d] < layout.shape@.flat()[d]),
        logical_divide_view(layout.shape@, tiler.shape@).size_spec() <= usize::MAX,
    ensures
        r.shape@ == logical_divide_view(layout.shape@, tiler.shape@),
        r.contig == true,
        r.wf(),
        is_rm_flat(r.stride@.flat(), r.shape@.flat()),
{
    let divided = ld_tuple(&layout.shape.dims, &tiler.shape.dims);
    proof {
        lemma_ld_pos(layout.shape@, tiler.shape@);
    }
    Layout::new::<RowMajor>(Shape::new(divided))
}

/// Separate the layout into the verbatim tile tree and a "rest" tree of
/// integer quotients, restriped row-major.
pub fn zipped_divide(layout: &Layout, tiler: &Layout) -> (r: Layout)
    requires
        tiler.shape@.congruent(layout.shape@),
        forall|d: int|
            0 <= d < tiler.shape@.flat().len() ==> (1 <= #[trigger] tiler.shape@.flat()[d]
                && tiler.shape@.flat()[d] <= layout.shape@.flat()[d]),
        layout.shape@.size_spec() <= usize::MAX,
    ensures
        r.shape@ == zipped_view(layout.shape@, tiler.shape@),
        r.contig == true,
        r.wf(),
        is_rm_flat(r.stride@.flat(), r.shape@.flat()),
{
    let ghost lsv = layout.shape@;
    let ghost tsv = tiler.shape@;
    let tile = tiler.shape.dims.clone();
    let rest = quot_tuple(&layout.shape.dims, &tiler.shape.dims);
    let mut kids: Vec<Tuple> = Vec::new();
    let ghost tile_v = tile@;
    let ghost rest_v = rest@;
    kids.push(tile);
    kids.push(rest);
    proof {
        assert(node_views(kids@) =~= seq![tile_v, rest_v]) by {
            lemma_node_views_len(kids@);
            lemma_node_views_index(kids@, 0);
            lemma_node_views_index(kids@, 1);
        }
        lemma_zipped_requires(lsv, tsv);
    }
    Layout::new::<RowMajor>(Shape::new(Tuple::Tup(kids)))
}

/// The zipped shape over a within-bounds tiler has positive leaves and
/// a size no larger than the layout's.
pub proof fn lemma_zipped_requires(l: TupleView, t: TupleView)
    requires
        t.congruent(l),
        forall|d: int|
            0 <= d < t.flat().len() ==> (1 <= #[trigger] t.flat()[d]
                && t.flat()[d] <= l.flat()[d]),
        l.size_spec() <= usize::MAX,
    ensures
        zipped_view(l, t).leaves_pos(),
        zipped_view(l, t).size_spec() <= l.size_spec(),
        zipped_view(l, t).size_spec() <= usize::MAX,
{
    lemma_congruent_flat_len(t, l);
    lemma_rest_view_shape(l, t);
    let rv = rest_view(l, t);
    lemma_quot_prod_le(l.flat(), t.flat());
    lemma_size_is_flat_prod(l);
    lemma_size_is_flat_prod(t);
    lemma_size_is_flat_prod(rv);
    // positive leaves on both sides
    lemma_leaves_pos_flat(t);
    lemma_leaves_pos_flat(rv);
    assert(crate::radix::all_pos(rv.flat())) by {
        assert forall|d: int| 0 <= d < rv.flat().len() implies 1 <= #[trigger] rv.flat()[d] by {
            assert(rv.flat()[d] == quot_seq(l.flat(), t.flat())[d]);
            vstd::arithmetic::div_mod::lemma_div_non_zero(
                l.flat()[d] as int,
                t.flat()[d] as int,
            );
        }
    }
    let two = seq![t, rv];
    assert forall|i: int| 0 <= i < two.len() implies (#[trigger] two[i]).leaves_pos() by {}
    lemma_nodes_pos_intro(two);
    // the size is the product of the two parts
    assert(two.drop_last() =~= seq![t]);
    assert(seq![t].drop_last().len() == 0);
    assert(sizes_prod(seq![t].drop_last()) == 1);
    assert(sizes_prod(seq![t]) == 1 * t.size_spec());
    assert(1 * t.size_spec() == t.size_spec()) by (nonlinear_arith);
    assert(sizes_prod(two) == t.size_spec() * rv.size_spec());
    assert(t.size_spec() * rv.size_spec() <= l.size_spec());
}

/// Flatten the rest component of the zipped shape by one level:
/// `((tile), rest0, rest1, ...)`, restriped row-major.
pub fn tiled_divide(layout: &Layout, tiler: &Layout) -> (r: Layout)
    requires
        tiler.shape@.congruent(layout.shape@),
        forall|d: int|
            0 <= d < tiler.shape@.flat().len() ==> (1 <= #[trigger] tiler.shape@.flat()[d]
                && tiler.shape@.flat()[d] <= layout.shape@.flat()[d]),
        layout.shape@.size_spec() <= usize::MAX,
    ensures
        r.shape@ == tiled_view(layout.shape@, tiler.shape@),
        r.contig == true,
        r.wf(),
        is_rm_flat(r.stride@.flat(), r.shape@.flat()),
{
    let ghost lsv = layout.shape@;
    let ghost tsv = tiler.shape@;
    let tile = tiler.shape.dims.clone();
    let rest = quot_tuple(&layout.shape.dims, &tiler.shape.dims);
    let ghost tile_v = tile@;
    let ghost rest_v = rest@;
    let mut kids: Vec<Tuple> = Vec::new();
    kids.push(tile);
    let ghost kids_one = kids@;
    proof {
        assert(node_views(kids_one) =~= seq![tile_v]) by {
            lemma_node_views_len(kids_one);
            lemma_node_views_index(kids_one, 0);
        }
    }
    match rest {
        Tuple::Tup(mut cs) => {
            let ghost cs_v = cs@;
            kids.append(&mut cs);
            proof {
                lemma_node_views_concat(kids_one, cs_v);
                assert(kids@ =~= kids_one + cs_v);
                assert(node_views(kids@) =~= seq![tile_v] + node_views(cs_v));
                assert(rest_v == TupleView::Node(node_views(cs_v)));
                assert(tiled_kids(lsv, tsv) == node_views(cs_v));
            }
        }
        c => {
            proof {
                assert(c@ == rest_v);
                assert(rest_v is Leaf);
            }
            let ghost prev = kids@;
            kids.push(c);
            proof {
                assert(kids@.drop_last() =~= prev);
                assert(node_views(kids@) == node_views(prev).push(rest_v));
                assert(node_views(kids@) =~= seq![tile_v, rest_v]);
                assert(tiled_kids(lsv, tsv) =~= seq![rest_v]);
                assert(node_views(kids@) =~= seq![tile_v] + tiled_kids(lsv, tsv));
            }
        }
    }
    proof {
        lemma_tiled_requires(lsv, tsv);
        assert(node_views(kids@) =~= seq![tsv] + tiled_kids(lsv, tsv));
    }
    Layout::new::<RowMajor>(Shape::new(Tuple::Tup(kids)))
}

/// The tiled shape over a within-bounds tiler has positive leaves and
/// a size no larger than the layout's.
pub proof fn lemma_tiled_requires(l: TupleView, t: TupleView)
    requires
        t.congruent(l),
        forall|d: int|
            0 <= d < t.flat().len() ==> (1 <= #[trigger] t.flat()[d]
                && t.flat()[d] <= l.flat()[d]),
        l.size_spec() <= usize::MAX,
    ensures
        tiled_view(l, t).leaves_pos(),
        tiled_view(l, t).size_spec() <= l.size_spec(),
        tiled_view(l, t).size_spec() <= usize::MAX,
{
    lemma_zipped_requires(l, t);
    let rv = rest_view(l, t);
    let kids = seq![t] + tiled_kids(l, t);
    // positive leaves of every entry
    assert forall|i: int| 0 <= i < kids.len() implies (#[trigger] kids[i]).leaves_pos() by {
        if i == 0 {
            assert(kids[0] == t);
            crate::tuple::lemma_nodes_pos_index(seq![t, rv], 0);
        } else {
            match rv {
                TupleView::Node(cs) => {
                    assert(kids[i] == cs[i - 1]);
                    crate::tuple::lemma_nodes_pos_index(seq![t, rv], 1);
                    crate::tuple::lemma_nodes_pos_index(cs, i - 1);
                }
                _ => {
                    assert(kids[i] == rv);
                    crate::tuple::lemma_nodes_pos_index(seq![t, rv], 1);
                }
            }
        }
    }
    lemma_nodes_pos_intro(kids);
    // the sizes product equals that of the zipped form
    assert(kids.drop_first() =~= tiled_kids(l, t));
    lemma_sizes_prod_head(kids);
    assert(kids[0] == t);
    match rv {
        TupleView::Node(cs) => {
            assert(tiled_kids(l, t) == cs);
            assert(sizes_prod(cs) == rv.size_spec());
        }
        _ => {
            assert(tiled_kids(l, t) =~= seq![rv]);
            assert(seq![rv].drop_last().len() == 0);
            assert(sizes_prod(seq![rv].drop_last()) == 1);
            assert(sizes_prod(seq![rv]) == 1 * rv.size_spec());
            assert(1 * rv.size_spec() == rv.size_spec()) by (nonlinear_arith);
        }
    }
    assert(sizes_prod(kids) == t.size_spec() * sizes_prod(tiled_kids(l, t)));
    assert(zipped_view(l, t).size_spec() == t.size_spec() * rv.size_spec()) by {
        let two = seq![t, rv];
        assert(two.drop_last() =~= seq![t]);
        assert(seq![t].drop_last().len() == 0);
        assert(sizes_prod(seq![t].drop_last()) == 1);
        assert(sizes_prod(seq![t]) == 1 * t.size_spec());
        assert(1 * t.size_spec() == t.size_spec()) by (nonlinear_arith);
    }
}

/// Fully flatten the tiled shape into one flat leaf run:
/// `(tile0, ..., rest0, ...)`, restriped row-major.  This is the
/// canonical form consumed by tile enumeration.
pub fn flat_divide(layout: &Layout, tiler: &Layout) -> (r: Layout)
    requires
        tiler.shape@.congruent(layout.shape@),
        forall|d: int|
            0 <= d < tiler.shape@.flat().len() ==> (1 <= #[trigger] tiler.shape@.flat()[d]
                && tiler.shape@.flat()[d] <= layout.shape@.flat()[d]),
        layout.shape@.size_spec() <= usize::MAX,
    ensures
        r.shape@ == flat_divide_view(layout.shape@, tiler.shape@),
        r.contig == true,
        r.wf(),
        is_rm_flat(r.stride@.flat(), r.shape@.flat()),
{
    let ghost lsv = layout.shape@;
    let ghost tsv = tiler.shape@;
    let tf = tiler.shape.dims.flatten();
    let lf = layout.shape.dims.flatten();
    proof {
        lemma_congruent_flat_len(tsv, lsv);
    }
    let mut v: Vec<usize> = Vec::new();
    let mut i: usize = 0;
    while i < tf.len()
        invariant
            tf@ == tsv.flat(),
            0 <= i <= tf@.len(),
            v@ =~= tsv.flat().take(i as int),
        decreases tf.len() - i,
    {
        v.push(tf[i]);
        assert(v@ =~= tsv.flat().take(i + 1));
        i = i + 1;
    }
    proof {
        assert(tsv.flat().take(tsv.flat().len() as int) =~= tsv.flat());
    }
    let n = tf.len();
    let mut j: usize = 0;
    while j < n
        invariant
            tf@ == tsv.flat(),
            lf@ == lsv.flat(),
            tf@.len() == n,
            lf@.len() == n,
            forall|d: int|
                0 <= d < tsv.flat().len() ==> (1 <= #[trigger] tsv.flat()[d]
                    && tsv.flat()[d] <= lsv.flat()[d]),
            0 <= j <= n,
            v@ =~= tsv.flat() + quot_seq(lsv.flat(), tsv.flat()).take(j as int),
        decreases n - j,
    {
        v.push(lf[j] / tf[j]);
        assert(v@ =~= tsv.flat() + quot_seq(lsv.flat(), tsv.flat()).take(j + 1));
        j = j + 1;
    }
    proof {
        assert(quot_seq(lsv.flat(), tsv.flat()).take(n as int)
            =~= quot_seq(lsv.flat(), tsv.flat()));
        lemma_flat_requires(lsv, tsv);
    }
    Layout::new::<RowMajor>(Shape::new(Tuple::Int(v)))
}

/// The flat shape over a within-bounds tiler has positive entries and
/// a size no larger than the layout's.
pub proof fn lemma_flat_requires(l: TupleView, t: TupleView)
    requires
        t.congruent(l),
        forall|d: int|
            0 <= d < t.flat().len() ==> (1 <= #[trigger] t.flat()[d]
                && t.flat()[d] <= l.flat()[d]),
        l.size_spec() <= usize::MAX,
    ensures
        flat_divide_view(l, t).leaves_pos(),
        flat_divide_view(l, t).size_spec() <= l.size_spec(),
        flat_divide_view(l, t).size_spec() <= usize::MAX,
{
    lemma_congruent_flat_len(t, l);
    let tf = t.flat();
    let lf = l.flat();
    let qs = quot_seq(lf, tf);
    lemma_quot_prod_le(lf, tf);
    lemma_seq_prod_concat(tf, qs);
    lemma_size_is_flat_prod(l);
    assert(crate::radix::all_pos(tf + qs)) by {
        assert forall|d: int| 0 <= d < (tf + qs).len() implies 1 <= #[trigger] (tf + qs)[d] by {
            if d < tf.len() {
                assert((tf + qs)[d] == tf[d]);
            } else {
                assert((tf + qs)[d] == qs[d - tf.len()]);
                vstd::arithmetic::div_mod::lemma_div_non_zero(
                    lf[d - tf.len()] as int,
                    tf[d - tf.len()] as int,
                );
            }
        }
    }
}

/// The elementwise difference of two congruent trees.
pub open spec fn diff_view(a: TupleView, b: TupleView) -> TupleView
    decreases a,
{
    match (a, b) {
        (TupleView::Leaf(av), TupleView::Leaf(bv)) => TupleView::Leaf(
            Seq::new(av.len(), |d: int| (av[d] - bv[d]) as usize),
        ),
        (TupleView::Node(av), TupleView::Node(bv)) => TupleView::Node(diff_children(av, bv)),
        _ => TupleView::Leaf(Seq::empty()),
    }
}

pub open spec fn diff_children(av: Seq<TupleView>, bv: Seq<TupleView>) -> Seq<TupleView>
    decreases av,
{
    if av.len() == 0 {
        Seq::empty()
    } else {
        diff_children(av.drop_last(), bv.drop_last()).push(diff_view(av.last(), bv.last()))
    }
}

pub proof fn lemma_diff_children_len(av: Seq<TupleView>, bv: Seq<TupleView>)
    requires
        av.len() == bv.len(),
    ensures
        diff_children(av, bv).len() == av.len(),
    decreases av,
{
    if av.len() > 0 {
        lemma_diff_children_len(av.drop_last(), bv.drop_last());
    }
}

pub proof fn lemma_diff_children_index(av: Seq<TupleView>, bv: Seq<TupleView>, i: int)
    requires
        av.len() == bv.len(),
        0 <= i < av.len(),
    ensures
        diff_children(av, bv).len() == av.len(),
        diff_children(av, bv)[i] == diff_view(av[i], bv[i]),
    decreases av,
{
    lemma_diff_children_len(av, bv);
    if i < av.len() - 1 {
        lemma_diff_children_index(av.drop_last(), bv.drop_last(), i);
        assert(av.drop_last()[i] == av[i]);
        assert(bv.drop_last()[i] == bv[i]);
    }
}

/// Subtract one tree from a congruent tree, elementwise; every entry
/// of the subtrahend must be at most its counterpart.
pub fn subtract_tuples(a: &Tuple, b: &Tuple) -> (r: Tuple)
    requires
        b@.congruent(a@),
        forall|d: int|
            0 <= d < b@.flat().len() ==> #[trigger] b@.flat()[d] <= a@.flat()[d],
    ensures
        r@ == diff_view(a@, b@),
    decreases *a,
{
    match (a, b) {
        (Tuple::Int(av), Tuple::Int(bv)) => {
            let mut out: Vec<usize> = Vec::new();
            let mut i: usize = 0;
            proof {
                lemma_congruent_flat_len(b@, a@);
            }
            while i < av.len()
                invariant
                    *a == Tuple::Int(*av),
                    *b == Tuple::Int(*bv),
                    a@ == TupleView::Leaf(av@),
                    b@ == TupleView::Leaf(bv@),
                    av@.len() == bv@.len(),
                    forall|d: int| 0 <= d < bv@.len() ==> #[trigger] bv@[d] <= av@[d],
                    0 <= i <= av.len(),
                    out@ =~= Seq::new(av@.len(), |d: int| (av@[d] - bv@[d]) as usize).take(
                        i as int,
                    ),
                decreases av.len() - i,
            {
                out.push(av[i] - bv[i]);
                assert(out@ =~= Seq::new(av@.len(), |d: int| (av@[d] - bv@[d]) as usize).take(
                    i + 1,
                ));
                i = i + 1;
            }
            proof {
                let full = Seq::new(av@.len(), |d: int| (av@[d] - bv@[d]) as usize);
                assert(full.take(av@.len() as int) =~= full);
            }
            Tuple::Int(out)
        }
        (Tuple::Tup(av), Tuple::Tup(bv)) => {
            let ghost sav = node_views(av@);
            let ghost sbv = node_views(bv@);
            let mut out: Vec<Tuple> = Vec::new();
            let mut i: usize = 0;
            proof {
                lemma_node_views_len(av@);
                lemma_node_views_len(bv@);
                lemma_diff_children_len(sav, sbv);
            }
            while i < av.len()
                invariant
                    *a == Tuple::Tup(*av),
                    *b == Tuple::Tup(*bv),
                    a@ == TupleView::Node(sav),
                    b@ == TupleView::Node(sbv),
                    sav == node_views(av@),
                    sbv == node_views(bv@),
                    sav.len() == av@.len(),
                    sbv.len() == bv@.len(),
                    nodes_congruent(sbv, sav),
                    forall|d: int|
                        0 <= d < b@.flat().len() ==> #[trigger] b@.flat()[d] <= a@.flat()[d],
                    0 <= i <= av.len(),
                    out@.len() == i,
                    node_views(out@) =~= diff_children(sav, sbv).take(i as int),
                    diff_children(sav, sbv).len() == sav.len(),
                decreases av.len() - i,
            {
                proof {
                    assert(decreases_to!(*a => a->Tup_0));
                    assert(a->Tup_0 == *av);
                    assert(decreases_to!(*av => av@));
                    assert(decreases_to!(av@ => av@[i as int]));
                    assert(decreases_to!(*a => av@[i as int]));
                    lemma_node_views_index(av@, i as int);
                    lemma_node_views_index(bv@, i as int);
                    lemma_nodes_congruent_index(sbv, sav, i as int);
                    lemma_nodes_congruent_parts(sbv, sav, i as int);
                    lemma_congruent_flat_len_seq(sbv.take(i as int), sav.take(i as int));
                    lemma_congruent_flat_len(sbv[i as int], sav[i as int]);
                    lemma_flat_cat_split(sbv, i as int);
                    lemma_flat_cat_head(sbv.skip(i as int));
                    assert(sbv.skip(i as int)[0] == sbv[i as int]);
                    assert(sbv.skip(i as int).drop_first() =~= sbv.skip(i + 1));
                    lemma_flat_cat_split(sav, i as int);
                    lemma_flat_cat_head(sav.skip(i as int));
                    assert(sav.skip(i as int)[0] == sav[i as int]);
                    assert(sav.skip(i as int).drop_first() =~= sav.skip(i + 1));
                    let off = flat_cat(sbv.take(i as int)).len();
                    assert(flat_cat(sbv) =~= flat_cat(sbv.take(i as int))
                        + (sbv[i as int].flat() + flat_cat(sbv.skip(i + 1))));
                    assert(flat_cat(sav) =~= flat_cat(sav.take(i as int))
                        + (sav[i as int].flat() + flat_cat(sav.skip(i + 1))));
                    assert forall|d: int| 0 <= d < sbv[i as int].flat().len() implies
                        #[trigger] sbv[i as int].flat()[d] <= sav[i as int].flat()[d] by {
                        assert(b@.flat()[off + d] == sbv[i as int].flat()[d]);
                        assert(a@.flat()[off + d] == sav[i as int].flat()[d]);
                    }
                }
                let c = subtract_tuples(&av[i], &bv[i]);
                let ghost prev = out@;
                out.push(c);
                proof {
                    assert(out@.drop_last() =~= prev);
                    assert(node_views(out@) == node_views(prev).push(c@));
                    assert(node_views(out@).drop_last() =~= node_views(prev));
                    assert(diff_children(sav, sbv).take(i + 1).drop_last()
                        =~= diff_children(sav, sbv).take(i as int));
                    assert(diff_children(sav, sbv).take(i + 1).last()
                        == diff_children(sav, sbv)[i as int]);
                    lemma_diff_children_index(sav, sbv, i as int);
                    assert(node_views(out@) =~= diff_children(sav, sbv).take(i + 1));
                }
                i = i + 1;
            }
            proof {
                assert(diff_children(sav, sbv).take(sav.len() as int)
                    =~= diff_children(sav, sbv));
            }
            Tuple::Tup(out)
        }
        _ => {
            proof {
                assert(false);
            }
            Tuple::Int(Vec::new())
        }
    }
}

/// The first `n` top-level entries of a tree.
pub open spec fn top_take(t: TupleView, n: int) -> TupleView {
    match t {
        TupleView::Leaf(v) => TupleView::Leaf(v.take(n)),
        TupleView::Node(vs) => TupleView::Node(vs.take(n)),
    }
}

/// Everything after the first `n` top-level entries of a tree.
pub open spec fn top_skip(t: TupleView, n: int) -> TupleView {
    match t {
        TupleView::Leaf(v) => TupleView::Leaf(v.skip(n)),
        TupleView::Node(vs) => TupleView::Node(vs.skip(n)),
    }
}

/// Keep the first `n` top-level entries of a tuple.
pub fn take_tuple(a: &Tuple, n: usize) -> (r: Tuple)
    requires
        n <= a@.arity(),
    ensures
        r@ == top_take(a@, n as int),
{
    match a {
        Tuple::Int(v) => {
            let mut out: Vec<usize> = Vec::new();
            let mut i: usize = 0;
            while i < n
                invariant
                    a@ == TupleView::Leaf(v@),
                    n <= v@.len(),
                    0 <= i <= n,
                    out@ =~= v@.take(i as int),
                decreases n - i,
            {
                out.push(v[i]);
                assert(out@ =~= v@.take(i + 1));
                i = i + 1;
            }
            Tuple::Int(out)
        }
        Tuple::Tup(vs) => {
            let mut out: Vec<Tuple> = Vec::new();
            let mut i: usize = 0;
            proof {
                lemma_node_views_len(vs@);
            }
            while i < n
                invariant
                    a@ == TupleView::Node(node_views(vs@)),
                    node_views(vs@).len() == vs@.len(),
                    n <= vs@.len(),
                    0 <= i <= n,
                    node_views(out@) =~= node_views(vs@).take(i as int),
                decreases n - i,
            {
                proof {
                    lemma_node_views_index(vs@, i as int);
                }
                let c = vs[i].clone();
                let ghost prev = out@;
                out.push(c);
                proof {
                    assert(out@.drop_last() =~= prev);
                    assert(node_views(out@) == node_views(prev).push(c@));
                    assert(node_views(out@).drop_last() =~= node_views(prev));
                    assert(node_views(vs@).take(i + 1).drop_last()
                        =~= node_views(vs@).take(i as int));
                    assert(node_views(vs@).take(i + 1).last() == node_views(vs@)[i as int]);
                    assert(node_views(out@) =~= node_views(vs@).take(i + 1));
                }
                i = i + 1;
            }
            Tuple::Tup(out)
        }
    }
}

/// Drop the first `n` top-level entries of a tuple.
pub fn skip_tuple(a: &Tuple, n: usize) -> (r: Tuple)
    requires
        n <= a@.arity(),
    ensures
        r@ == top_skip(a@, n as int),
{
    match a {
        Tuple::Int(v) => {
            let mut out: Vec<usize> = Vec::new();
            let mut i: usize = n;
            while i < v.len()
                invariant
                    a@ == TupleView::Leaf(v@),
                    n <= i <= v@.len(),
                    out@ =~= v@.subrange(n as int, i as int),
                decreases v.len() - i,
            {
                out.push(v[i]);
                assert(out@ =~= v@.subrange(n as int, i + 1));
                i = i + 1;
            }
            proof {
                assert(v@.subrange(n as int, v@.len() as int) =~= v@.skip(n as int));
            }
            Tuple::Int(out)
        }
        Tuple::Tup(vs) => {
            let mut out: Vec<Tuple> = Vec::new();
            let mut i: usize = n;
            proof {
                lemma_node_views_len(vs@);
                assert(node_views(vs@).subrange(n as int, n as int).len() == 0);
            }
            while i < vs.len()
                invariant
                    a@ == TupleView::Node(node_views(vs@)),
                    node_views(vs@).len() == vs@.len(),
                    n <= i <= vs@.len(),
                    node_views(out@) =~= node_views(vs@).subrange(n as int, i as int),
                decreases vs.len() - i,
            {
                proof {
                    lemma_node_views_index(vs@, i as int);
                }
                let c = vs[i].clone();
                let ghost prev = out@;
                out.push(c);
                proof {
                    assert(out@.drop_last() =~= prev);
                    assert(node_views(out@) == node_views(prev).push(c@));
                    assert(node_views(out@).drop_last() =~= node_views(prev));
                    assert(node_views(vs@).subrange(n as int, i + 1).drop_last()
                        =~= node_views(vs@).subrange(n as int, i as int));
                    assert(node_views(vs@).subrange(n as int, i + 1).last()
                        == node_views(vs@)[i as int]);
                    assert(node_views(out@) =~= node_views(vs@).subrange(n as int, i + 1));
                }
                i = i + 1;
            }
            proof {
                assert(node_views(vs@).subrange(n as int, vs@.len() as int)
                    =~= node_views(vs@).skip(n as int));
            }
            Tuple::Tup(out)
        }
    }
}

} // verus!
