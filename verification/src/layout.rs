use vstd::prelude::*;
use crate::radix::{seq_prod, all_pos, lemma_seq_prod_skip_step, lemma_seq_prod_skip_le,
    lemma_seq_prod_concat, decomp_ok, decomp_digits, decomp_rem, lemma_decomp_len,
    lemma_decomp_concat, lemma_decomp_ok_concat};
use vstd::arithmetic::div_mod::{lemma_fundamental_div_mod, lemma_mod_bound};
use crate::shape::Shape;
use crate::tuple::{Tuple, TupleView, node_views, nodes_congruent, nodes_pos, flat_cat,
    sizes_prod, lemma_node_views_len, lemma_node_views_index, lemma_flat_cat_split,
    lemma_flat_cat_head, lemma_flat_cat_take_succ, lemma_sizes_prod_head, lemma_sizes_prod_split,
    lemma_nodes_pos_index, lemma_leaves_pos_flat, lemma_nodes_pos_flat, lemma_tree_pos_size,
    lemma_size_is_flat_prod, lemma_sizes_prod_is_flat, lemma_size_ok_from_bounds,
    lemma_nodes_pos_sizes_pos,
    lemma_congruent_flat_len, lemma_congruent_trans, lemma_nodes_congruent_index,
    lemma_nodes_congruent_intro};

verus! {

/// A run of strides in row-major relation to a run of extents: each
/// stride is the product of the extents strictly after its position.
pub open spec fn is_rm_flat(st: Seq<usize>, sh: Seq<usize>) -> bool {
    &&& st.len() == sh.len()
    &&& forall|d: int| 0 <= d < st.len() ==> (#[trigger] st[d]) as int == seq_prod(sh.skip(d + 1))
}

/// A run of strides in column-major relation to a run of extents: each
/// stride is the product of the extents strictly before its position.
pub open spec fn is_cm_flat(st: Seq<usize>, sh: Seq<usize>) -> bool {
    &&& st.len() == sh.len()
    &&& forall|d: int| 0 <= d < st.len() ==> (#[trigger] st[d]) as int == seq_prod(sh.take(d))
}

/// The run with every entry multiplied by `f`.
pub open spec fn scaled(s: Seq<usize>, f: int) -> Seq<usize> {
    Seq::new(s.len(), |d: int| (s[d] * f) as usize)
}

/// Multiply every leaf of a stride tree by a common factor, keeping
/// the tree structure.
fn scale_stride(t: &Tuple, factor: usize) -> (r: Tuple)
    requires
        forall|d: int|
            0 <= d < t@.flat().len() ==> (#[trigger] t@.flat()[d]) * factor <= usize::MAX,
    ensures
        r@.congruent(t@),
        r@.flat() == scaled(t@.flat(), factor as int),
    decreases *t,
{
    match t {
        Tuple::Int(v) => {
            let mut out: Vec<usize> = Vec::new();
            let mut i: usize = 0;
            while i < v.len()
                invariant
                    *t == Tuple::Int(*v),
                    t@ == TupleView::Leaf(v@),
                    forall|d: int|
                        0 <= d < v@.len() ==> (#[trigger] v@[d]) * factor <= usize::MAX,
                    0 <= i <= v.len(),
                    out@ =~= scaled(v@, factor as int).take(i as int),
                decreases v.len() - i,
            {
                out.push(v[i] * factor);
                assert(out@ =~= scaled(v@, factor as int).take(i + 1));
                i = i + 1;
            }
            proof {
                assert(scaled(v@, factor as int).take(v@.len() as int)
                    =~= scaled(v@, factor as int));
            }
            Tuple::Int(out)
        }
        Tuple::Tup(vs) => {
            let ghost svs = node_views(vs@);
            let mut out: Vec<Tuple> = Vec::new();
            let mut i: usize = 0;
            proof {
                lemma_node_views_len(vs@);
            }
            while i < vs.len()
                invariant
                    *t == Tuple::Tup(*vs),
                    t@ == TupleView::Node(svs),
                    svs == node_views(vs@),
                    svs.len() == vs@.len(),
                    forall|d: int|
                        0 <= d < t@.flat().len()
                            ==> (#[trigger] t@.flat()[d]) * factor <= usize::MAX,
                    0 <= i <= vs.len(),
                    nodes_congruent(node_views(out@), svs.take(i as int)),
                    flat_cat(node_views(out@)) =~= scaled(
                        flat_cat(svs.take(i as int)),
                        factor as int,
                    ),
                decreases vs.len() - i,
            {
                proof {
                    assert(decreases_to!(*t => t->Tup_0));
                    assert(t->Tup_0 == *vs);
                    assert(decreases_to!(*vs => vs@));
                    assert(decreases_to!(vs@ => vs@[i as int]));
                    assert(decreases_to!(*t => vs@[i as int]));
                    lemma_node_views_index(vs@, i as int);
                    // the child's flattened entries sit inside the parent's run
                    lemma_flat_cat_split(svs, i as int);
                    lemma_flat_cat_head(svs.skip(i as int));
                    assert(svs.skip(i as int)[0] == svs[i as int]);
                    assert(svs.skip(i as int).drop_first() =~= svs.skip(i + 1));
                    assert forall|d: int| 0 <= d < svs[i as int].flat().len() implies
                        (#[trigger] svs[i as int].flat()[d]) * factor <= usize::MAX by {
                        let off = flat_cat(svs.take(i as int)).len();
                        assert(flat_cat(svs) =~= flat_cat(svs.take(i as int))
                            + (svs[i as int].flat() + flat_cat(svs.skip(i + 1))));
                        assert(t@.flat()[off + d] == svs[i as int].flat()[d]);
                    }
                }
                let c = scale_stride(&vs[i], factor);
                let ghost prev = out@;
                out.push(c);
                proof {
                    assert(out@.drop_last() =~= prev);
                    assert(node_views(out@) == node_views(prev).push(c@));
                    assert(node_views(out@).drop_last() =~= node_views(prev));
                    assert(node_views(out@).last() == c@);
                    assert(flat_cat(node_views(out@))
                        == flat_cat(node_views(prev)) + c@.flat());
                    lemma_flat_cat_take_succ(svs, i as int);
                    assert(svs.take(i + 1).drop_last() =~= svs.take(i as int));
                    assert(svs.take(i + 1).last() == svs[i as int]);
                    assert(flat_cat(node_views(out@)) =~= scaled(
                        flat_cat(svs.take(i + 1)),
                        factor as int,
                    ));
                    assert(nodes_congruent(node_views(out@), svs.take(i + 1)));
                }
                i = i + 1;
            }
            proof {
                assert(svs.take(svs.len() as int) =~= svs);
            }
            Tuple::Tup(out)
        }
    }
}

/// Row-major strides for a shape: within every nesting level the
/// rightmost dimension varies fastest, so each flattened stride is the
/// product of all extents after its position.
fn row_major_stride(shape: &Tuple) -> (r: Tuple)
    requires
        shape@.leaves_pos(),
        shape@.size_spec() <= usize::MAX,
    ensures
        r@.congruent(shape@),
        is_rm_flat(r@.flat(), shape@.flat()),
    decreases *shape,
{
    match shape {
        Tuple::Int(sizes) => {
            let n = sizes.len();
            let mut stride: Vec<usize> = Vec::new();
            let mut i: usize = 0;
            while i < n
                invariant
                    sizes@.len() == n,
                    0 <= i <= n,
                    stride@.len() == i,
                decreases n - i,
            {
                stride.push(0);
                i = i + 1;
            }
            let mut acc: usize = 1;
            let mut j: usize = n;
            proof {
                assert(sizes@.skip(n as int).len() == 0);
            }
            while j > 0
                invariant
                    *shape == Tuple::Int(*sizes),
                    shape@ == TupleView::Leaf(sizes@),
                    all_pos(sizes@),
                    seq_prod(sizes@) <= usize::MAX,
                    sizes@.len() == n,
                    stride@.len() == n,
                    0 <= j <= n,
                    acc as int == seq_prod(sizes@.skip(j as int)),
                    forall|d: int|
                        j <= d < n ==> (#[trigger] stride@[d]) as int
                            == seq_prod(sizes@.skip(d + 1)),
                decreases j,
            {
                j = j - 1;
                stride[j] = acc;
                proof {
                    lemma_seq_prod_skip_step(sizes@, j as int);
                    lemma_seq_prod_skip_le(sizes@, j as int);
                    assert(acc * sizes@[j as int] == seq_prod(sizes@.skip(j as int)))
                        by (nonlinear_arith)
                        requires
                            acc as int == seq_prod(sizes@.skip(j + 1)),
                            seq_prod(sizes@.skip(j as int))
                                == sizes@[j as int] * seq_prod(sizes@.skip(j + 1)),
                    ;
                }
                acc = acc * sizes[j];
            }
            Tuple::Int(stride)
        }
        Tuple::Tup(vs) => {
            let ghost svs = node_views(vs@);
            let mut out: Vec<Tuple> = Vec::new();
            let mut acc: usize = 1;
            let mut i: usize = vs.len();
            proof {
                lemma_node_views_len(vs@);
                assert(svs.skip(svs.len() as int).len() == 0);
                assert(flat_cat(svs.skip(svs.len() as int)).len() == 0);
            }
            while i > 0
                invariant
                    *shape == Tuple::Tup(*vs),
                    shape@ == TupleView::Node(svs),
                    svs == node_views(vs@),
                    svs.len() == vs@.len(),
                    nodes_pos(svs),
                    sizes_prod(svs) <= usize::MAX,
                    0 <= i <= vs.len(),
                    out@.len() == vs@.len() - i,
                    nodes_congruent(node_views(out@), svs.skip(i as int)),
                    acc as int == sizes_prod(svs.skip(i as int)),
                    flat_cat(node_views(out@)).len() == flat_cat(svs.skip(i as int)).len(),
                    forall|d: int|
                        0 <= d < flat_cat(node_views(out@)).len()
                            ==> (#[trigger] flat_cat(node_views(out@))[d]) as int
                                == seq_prod(flat_cat(svs.skip(i as int)).skip(d + 1)),
                decreases i,
            {
                i = i - 1;
                proof {
                    assert(decreases_to!(*shape => shape->Tup_0));
                    assert(shape->Tup_0 == *vs);
                    assert(decreases_to!(*vs => vs@));
                    assert(decreases_to!(vs@ => vs@[i as int]));
                    assert(decreases_to!(*shape => vs@[i as int]));
                    lemma_node_views_index(vs@, i as int);
                    lemma_nodes_pos_index(svs, i as int);
                    lemma_sizes_prod_split(svs, i as int);
                    lemma_sizes_prod_head(svs.skip(i as int));
                    assert(svs.skip(i as int)[0] == svs[i as int]);
                    assert(svs.skip(i as int).drop_first() =~= svs.skip(i + 1));
                    // positivity of the parts
                    assert(nodes_pos(svs.take(i as int)) && nodes_pos(svs.skip(i as int))) by {
                        lemma_nodes_pos_flat(svs);
                        lemma_nodes_pos_flat(svs.take(i as int));
                        lemma_nodes_pos_flat(svs.skip(i as int));
                        lemma_flat_cat_split(svs, i as int);
                        let off = flat_cat(svs.take(i as int)).len();
                        assert forall|d: int| 0 <= d < flat_cat(svs.take(i as int)).len()
                            implies 1 <= #[trigger] flat_cat(svs.take(i as int))[d] by {
                            assert(flat_cat(svs)[d] == flat_cat(svs.take(i as int))[d]);
                        }
                        assert forall|d: int| 0 <= d < flat_cat(svs.skip(i as int)).len()
                            implies 1 <= #[trigger] flat_cat(svs.skip(i as int))[d] by {
                            assert(flat_cat(svs)[off + d] == flat_cat(svs.skip(i as int))[d]);
                        }
                    }
                    lemma_nodes_pos_sizes_pos(svs.take(i as int));
                    lemma_nodes_pos_sizes_pos(svs.skip(i as int));
                    lemma_tree_pos_size(svs[i as int]);
                    assert(nodes_pos(svs.skip(i + 1))) by {
                        assert(svs.skip(i + 1) =~= svs.skip(i as int).drop_first());
                        lemma_nodes_pos_flat(svs.skip(i + 1));
                        lemma_nodes_pos_flat(svs.skip(i as int));
                        lemma_flat_cat_head(svs.skip(i as int));
                        let cl = svs[i as int].flat().len();
                        assert forall|d: int| 0 <= d < flat_cat(svs.skip(i + 1)).len()
                            implies 1 <= #[trigger] flat_cat(svs.skip(i + 1))[d] by {
                            assert(flat_cat(svs.skip(i as int))[cl + d]
                                == flat_cat(svs.skip(i + 1))[d]);
                        }
                    }
                    lemma_nodes_pos_sizes_pos(svs.skip(i + 1));
                    assert(sizes_prod(svs.skip(i as int)) <= sizes_prod(svs)) by (nonlinear_arith)
                        requires
                            sizes_prod(svs) == sizes_prod(svs.take(i as int))
                                * sizes_prod(svs.skip(i as int)),
                            sizes_prod(svs.take(i as int)) >= 1,
                            sizes_prod(svs.skip(i as int)) >= 0,
                    ;
                    assert(svs[i as int].size_spec() <= sizes_prod(svs.skip(i as int)))
                        by (nonlinear_arith)
                        requires
                            svs[i as int].size_spec() * sizes_prod(svs.skip(i + 1))
                                == sizes_prod(svs.skip(i as int)),
                            sizes_prod(svs.skip(i + 1)) >= 1,
                            svs[i as int].size_spec() >= 0,
                    ;
                }
                let child_rm = row_major_stride(&vs[i]);
                proof {
                    // every scaled stride entry stays within the subtree size
                    lemma_congruent_flat_len(child_rm@, svs[i as int]);
                    lemma_size_is_flat_prod(svs[i as int]);
                    lemma_leaves_pos_flat(svs[i as int]);
                    assert forall|d: int| 0 <= d < child_rm@.flat().len() implies
                        (#[trigger] child_rm@.flat()[d]) * acc <= usize::MAX by {
                        let sh_flat = svs[i as int].flat();
                        assert(child_rm@.flat()[d] as int == seq_prod(sh_flat.skip(d + 1)));
                        lemma_seq_prod_skip_le(sh_flat, d + 1);
                        assert(child_rm@.flat()[d] * acc
                            <= seq_prod(sh_flat) * sizes_prod(svs.skip(i + 1)))
                            by (nonlinear_arith)
                            requires
                                child_rm@.flat()[d] as int <= seq_prod(sh_flat),
                                acc as int == sizes_prod(svs.skip(i + 1)),
                                child_rm@.flat()[d] >= 0,
                                acc >= 1,
                                seq_prod(sh_flat) >= 1,
                        ;
                        assert(seq_prod(sh_flat) * sizes_prod(svs.skip(i + 1))
                            == sizes_prod(svs.skip(i as int)));
                    }
                }
                let st = scale_stride(&child_rm, acc);
                let ghost stv = st@;
                let ghost prev = out@;
                out.insert(0, st);
                proof {
                    assert(out@ =~= prev.insert(0, out@[0]));
                    assert(out@[0]@ == stv);
                    assert(node_views(out@) =~= seq![stv] + node_views(prev)) by {
                        lemma_node_views_len(out@);
                        lemma_node_views_len(prev);
                        assert forall|k: int| 0 <= k < out@.len() implies
                            node_views(out@)[k] == (seq![stv] + node_views(prev))[k] by {
                            lemma_node_views_index(out@, k);
                            if k > 0 {
                                lemma_node_views_index(prev, k - 1);
                                assert(out@[k] == prev[k - 1]);
                            }
                        }
                    }
                    // congruence of the extended run
                    lemma_congruent_trans(stv, child_rm@, svs[i as int]);
                    assert(svs.skip(i as int) =~= seq![svs[i as int]] + svs.skip(i + 1));
                    assert(nodes_congruent(node_views(out@), svs.skip(i as int))) by {
                        lemma_node_views_len(prev);
                        assert forall|k: int| 0 <= k < node_views(out@).len() implies
                            #[trigger] node_views(out@)[k].congruent(svs.skip(i as int)[k]) by {
                            if k == 0 {
                                assert(node_views(out@)[0] == stv);
                                assert(svs.skip(i as int)[0] == svs[i as int]);
                            } else {
                                lemma_nodes_congruent_index(
                                    node_views(prev),
                                    svs.skip(i + 1),
                                    k - 1,
                                );
                                assert(node_views(out@)[k] == node_views(prev)[k - 1]);
                                assert(svs.skip(i as int)[k] == svs.skip(i + 1)[k - 1]);
                            }
                        }
                        lemma_node_views_len(out@);
                        crate::tuple::lemma_congruent_flat_len(stv, child_rm@);
                        lemma_nodes_congruent_intro(node_views(out@), svs.skip(i as int));
                    }
                    // the flattened run of the extended strides
                    let cf = svs[i as int].flat();
                    let fi1 = flat_cat(svs.skip(i + 1));
                    let fi = flat_cat(svs.skip(i as int));
                    lemma_sizes_prod_is_flat(svs.skip(i + 1));
                    lemma_flat_cat_head(svs.skip(i as int));
                    assert(fi =~= cf + fi1);
                    lemma_flat_cat_head(node_views(out@));
                    assert(node_views(out@)[0] == stv);
                    assert(node_views(out@).drop_first() =~= node_views(prev));
                    assert(flat_cat(node_views(out@)) =~= stv.flat() + flat_cat(node_views(prev)));
                    lemma_congruent_flat_len(stv, child_rm@);
                    lemma_congruent_flat_len(child_rm@, svs[i as int]);
                    assert forall|d: int| 0 <= d < flat_cat(node_views(out@)).len() implies
                        (#[trigger] flat_cat(node_views(out@))[d]) as int
                            == seq_prod(fi.skip(d + 1)) by {
                        if d < cf.len() {
                            assert(flat_cat(node_views(out@))[d] == stv.flat()[d]);
                            assert(stv.flat()[d] == scaled(child_rm@.flat(), acc as int)[d]);
                            assert(stv.flat()[d] as int == child_rm@.flat()[d] * acc);
                            assert(child_rm@.flat()[d] as int == seq_prod(cf.skip(d + 1)));
                            lemma_seq_prod_concat(cf.skip(d + 1), fi1);
                            assert(fi.skip(d + 1) =~= cf.skip(d + 1) + fi1);
                        } else {
                            let d2 = d - cf.len();
                            assert(flat_cat(node_views(out@))[d] == flat_cat(node_views(prev))[d2]);
                            assert(flat_cat(node_views(prev))[d2] as int
                                == seq_prod(fi1.skip(d2 + 1)));
                            assert(fi.skip(d + 1) =~= fi1.skip(d2 + 1));
                        }
                    }
                }
                proof {
                    lemma_size_ok_from_bounds(svs[i as int]);
                }
                let s = vs[i].size();
                proof {
                    assert((acc * s) as int == sizes_prod(svs.skip(i as int))) by (nonlinear_arith)
                        requires
                            acc as int == sizes_prod(svs.skip(i + 1)),
                            s as int == svs[i as int].size_spec(),
                            sizes_prod(svs.skip(i as int))
                                == svs[i as int].size_spec() * sizes_prod(svs.skip(i + 1)),
                            sizes_prod(svs.skip(i as int)) <= usize::MAX,
                            acc >= 0,
                            s >= 0,
                    ;
                }
                acc = acc * s;
            }
            proof {
                assert(svs.skip(0) =~= svs);
            }
            Tuple::Tup(out)
        }
    }
}

/// Column-major strides for a shape: within every nesting level the
/// leftmost dimension varies fastest, so each flattened stride is the
/// product of all extents before its position.
fn col_major_stride(shape: &Tuple) -> (r: Tuple)
    requires
        shape@.leaves_pos(),
        shape@.size_spec() <= usize::MAX,
    ensures
        r@.congruent(shape@),
        is_cm_flat(r@.flat(), shape@.flat()),
    decreases *shape,
{
    match shape {
        Tuple::Int(sizes) => {
            let n = sizes.len();
            let mut stride: Vec<usize> = Vec::new();
            let mut acc: usize = 1;
            let mut i: usize = 0;
            proof {
                assert(sizes@.take(0).len() == 0);
            }
            while i < n
                invariant
                    *shape == Tuple::Int(*sizes),
                    shape@ == TupleView::Leaf(sizes@),
                    all_pos(sizes@),
                    seq_prod(sizes@) <= usize::MAX,
                    sizes@.len() == n,
                    0 <= i <= n,
                    stride@.len() == i,
                    acc as int == seq_prod(sizes@.take(i as int)),
                    forall|d: int|
                        0 <= d < i ==> (#[trigger] stride@[d]) as int
                            == seq_prod(sizes@.take(d)),
                decreases n - i,
            {
                stride.push(acc);
                proof {
                    crate::radix::lemma_seq_prod_take_succ(sizes@, i as int);
                    crate::radix::lemma_seq_prod_take_le(sizes@, i + 1);
                }
                acc = acc * sizes[i];
                i = i + 1;
            }
            proof {
                assert(sizes@.take(sizes@.len() as int) =~= sizes@);
            }
            Tuple::Int(stride)
        }
        Tuple::Tup(vs) => {
            let ghost svs = node_views(vs@);
            let mut out: Vec<Tuple> = Vec::new();
            let mut acc: usize = 1;
            let mut i: usize = 0;
            proof {
                lemma_node_views_len(vs@);
                assert(svs.take(0).len() == 0);
                assert(flat_cat(svs.take(0)).len() == 0);
            }
            while i < vs.len()
                invariant
                    *shape == Tuple::Tup(*vs),
                    shape@ == TupleView::Node(svs),
                    svs == node_views(vs@),
                    svs.len() == vs@.len(),
                    nodes_pos(svs),
                    sizes_prod(svs) <= usize::MAX,
                    0 <= i <= vs.len(),
                    out@.len() == i,
                    nodes_congruent(node_views(out@), svs.take(i as int)),
                    acc as int == sizes_prod(svs.take(i as int)),
                    flat_cat(node_views(out@)).len() == flat_cat(svs.take(i as int)).len(),
                    forall|d: int|
                        0 <= d < flat_cat(node_views(out@)).len()
                            ==> (#[trigger] flat_cat(node_views(out@))[d]) as int
                                == seq_prod(flat_cat(svs.take(i as int)).take(d)),
                decreases vs.len() - i,
            {
                proof {
                    assert(decreases_to!(*shape => shape->Tup_0));
                    assert(shape->Tup_0 == *vs);
                    assert(decreases_to!(*vs => vs@));
                    assert(decreases_to!(vs@ => vs@[i as int]));
                    assert(decreases_to!(*shape => vs@[i as int]));
                    lemma_node_views_index(vs@, i as int);
                    lemma_nodes_pos_index(svs, i as int);
                    crate::tuple::lemma_child_size_le(svs, i as int);
                    lemma_tree_pos_size(svs[i as int]);
                }
                let child_cm = col_major_stride(&vs[i]);
                proof {
                    // every scaled stride entry stays within the whole size
                    lemma_congruent_flat_len(child_cm@, svs[i as int]);
                    lemma_size_is_flat_prod(svs[i as int]);
                    lemma_leaves_pos_flat(svs[i as int]);
                    crate::tuple::lemma_nodes_pos_parts(svs, i as int);
                    crate::tuple::lemma_nodes_pos_parts(svs, i + 1);
                    lemma_nodes_pos_flat(svs.take(i as int));
                    lemma_nodes_pos_flat(svs.take(i + 1));
                    lemma_nodes_pos_sizes_pos(svs.skip(i + 1));
                    lemma_sizes_prod_split(svs, i + 1);
                    lemma_sizes_prod_is_flat(svs.take(i as int));
                    lemma_sizes_prod_is_flat(svs.take(i + 1));
                    lemma_flat_cat_take_succ(svs, i as int);
                    let fpre = flat_cat(svs.take(i as int));
                    let cf = svs[i as int].flat();
                    crate::radix::lemma_seq_prod_concat(fpre, cf);
                    crate::radix::lemma_seq_prod_pos(fpre);
                    crate::radix::lemma_seq_prod_pos(cf);
                    assert(sizes_prod(svs.take(i + 1)) <= sizes_prod(svs)) by (nonlinear_arith)
                        requires
                            sizes_prod(svs) == sizes_prod(svs.take(i + 1))
                                * sizes_prod(svs.skip(i + 1)),
                            sizes_prod(svs.skip(i + 1)) >= 1,
                            sizes_prod(svs.take(i + 1)) >= 0,
                    ;
                    assert forall|d: int| 0 <= d < child_cm@.flat().len() implies
                        (#[trigger] child_cm@.flat()[d]) * acc <= usize::MAX by {
                        assert(child_cm@.flat()[d] as int == seq_prod(cf.take(d)));
                        crate::radix::lemma_seq_prod_take_le(cf, d);
                        assert(child_cm@.flat()[d] * acc <= seq_prod(cf) * seq_prod(fpre))
                            by (nonlinear_arith)
                            requires
                                child_cm@.flat()[d] as int <= seq_prod(cf),
                                acc as int == seq_prod(fpre),
                                child_cm@.flat()[d] >= 0,
                                acc >= 1,
                                seq_prod(cf) >= 1,
                        ;
                        assert(seq_prod(cf) * seq_prod(fpre) == seq_prod(fpre) * seq_prod(cf))
                            by (nonlinear_arith);
                        assert(seq_prod(fpre + cf) == sizes_prod(svs.take(i + 1)));
                    }
                }
                let st = scale_stride(&child_cm, acc);
                let ghost stv = st@;
                let ghost prev = out@;
                out.push(st);
                proof {
                    assert(out@.drop_last() =~= prev);
                    assert(node_views(out@) == node_views(prev).push(stv));
                    assert(node_views(out@).drop_last() =~= node_views(prev));
                    assert(node_views(out@).last() == stv);
                    assert(flat_cat(node_views(out@))
                        == flat_cat(node_views(prev)) + stv.flat());
                    assert(svs.take(i + 1).drop_last() =~= svs.take(i as int));
                    assert(svs.take(i + 1).last() == svs[i as int]);
                    // congruence of the extended run
                    lemma_congruent_trans(stv, child_cm@, svs[i as int]);
                    assert(nodes_congruent(node_views(out@), svs.take(i + 1)));
                    // the flattened run of the extended strides
                    let fpre = flat_cat(svs.take(i as int));
                    let cf = svs[i as int].flat();
                    let fnew = flat_cat(svs.take(i + 1));
                    assert(fnew == fpre + cf);
                    lemma_congruent_flat_len(stv, child_cm@);
                    lemma_congruent_flat_len(child_cm@, svs[i as int]);
                    assert forall|d: int| 0 <= d < flat_cat(node_views(out@)).len() implies
                        (#[trigger] flat_cat(node_views(out@))[d]) as int
                            == seq_prod(fnew.take(d)) by {
                        if d < fpre.len() {
                            assert(flat_cat(node_views(out@))[d]
                                == flat_cat(node_views(prev))[d]);
                            assert(fnew.take(d) =~= fpre.take(d));
                        } else {
                            let d2 = d - fpre.len();
                            assert(flat_cat(node_views(out@))[d] == stv.flat()[d2]);
                            assert(stv.flat()[d2] == scaled(child_cm@.flat(), acc as int)[d2]);
                            assert(stv.flat()[d2] as int == child_cm@.flat()[d2] * acc);
                            assert(child_cm@.flat()[d2] as int == seq_prod(cf.take(d2)));
                            crate::radix::lemma_seq_prod_concat(fpre, cf.take(d2));
                            assert(fnew.take(d) =~= fpre + cf.take(d2));
                            assert(seq_prod(cf.take(d2)) * acc
                                == seq_prod(fpre) * seq_prod(cf.take(d2))) by (nonlinear_arith)
                                requires
                                    acc as int == seq_prod(fpre),
                            ;
                        }
                    }
                }
                proof {
                    lemma_size_ok_from_bounds(svs[i as int]);
                    crate::tuple::lemma_sizes_prod_take_succ(svs, i as int);
                }
                let s = vs[i].size();
                acc = acc * s;
                i = i + 1;
            }
            proof {
                assert(svs.take(svs.len() as int) =~= svs);
            }
            Tuple::Tup(out)
        }
    }
}

/// A shape paired with a congruent stride tree: the map from
/// coordinates to linear offsets.
#[derive(Debug, PartialEq, Eq)]
pub struct Layout {
    pub shape: Shape,
    pub stride: Tuple,
    pub contig: bool,
}

/// How a stride tree is derived from a shape.
pub trait LayoutPolicy {
    /// The flattened stride this policy assigns at position `d`.
    spec fn stride_flat(sh: Seq<usize>, d: int) -> int;

    fn make_stride(shape: &Shape) -> (r: Tuple)
        requires
            shape@.leaves_pos(),
            shape@.size_spec() <= usize::MAX,
        ensures
            r@.congruent(shape@),
            r@.flat().len() == shape@.flat().len(),
            forall|d: int|
                0 <= d < r@.flat().len() ==> (#[trigger] r@.flat()[d]) as int
                    == Self::stride_flat(shape@.flat(), d),
    ;
}

/// Rightmost dimension fastest; the innermost stride is one.
pub struct RowMajor;

/// Leftmost dimension fastest; the outermost stride is one.
pub struct ColMajor;

impl LayoutPolicy for RowMajor {
    open spec fn stride_flat(sh: Seq<usize>, d: int) -> int {
        seq_prod(sh.skip(d + 1))
    }

    fn make_stride(shape: &Shape) -> (r: Tuple) {
        row_major_stride(&shape.dims)
    }
}

impl LayoutPolicy for ColMajor {
    open spec fn stride_flat(sh: Seq<usize>, d: int) -> int {
        seq_prod(sh.take(d))
    }

    fn make_stride(shape: &Shape) -> (r: Tuple) {
        col_major_stride(&shape.dims)
    }
}

/// Whether the stride tree addresses the shape exactly as the canonical
/// dense row-major layout does, checked from the innermost dimension
/// outward.
pub fn is_layout_contig(shape: &Shape, stride: &Tuple) -> (r: bool)
    requires
        shape@.leaves_pos(),
        shape@.size_spec() <= usize::MAX,
        stride@.flat().len() == shape@.flat().len(),
    ensures
        r == is_rm_flat(stride@.flat(), shape@.flat()),
{
    let flat_shape = shape.dims.flatten();
    let flat_stride = stride.flatten();
    let n = flat_stride.len();
    let mut expected: usize = 1;
    let mut k: usize = 0;
    proof {
        lemma_size_is_flat_prod(shape@);
        lemma_leaves_pos_flat(shape@);
        assert(flat_shape@.skip(n as int).len() == 0);
    }
    while k < n
        invariant
            flat_shape@ == shape@.flat(),
            flat_stride@ == stride@.flat(),
            flat_shape@.len() == n,
            flat_stride@.len() == n,
            all_pos(flat_shape@),
            seq_prod(flat_shape@) <= usize::MAX,
            0 <= k <= n,
            expected as int == seq_prod(flat_shape@.skip(n - k)),
            forall|d: int|
                n - k <= d < n ==> (#[trigger] flat_stride@[d]) as int
                    == seq_prod(flat_shape@.skip(d + 1)),
        decreases n - k,
    {
        let d = n - 1 - k;
        if flat_stride[d] != expected {
            proof {
                assert(flat_stride@[d as int] as int != seq_prod(flat_shape@.skip(d + 1)));
                assert(!is_rm_flat(stride@.flat(), shape@.flat()));
            }
            return false;
        }
        proof {
            lemma_seq_prod_skip_step(flat_shape@, d as int);
            lemma_seq_prod_skip_le(flat_shape@, d as int);
            assert(expected * flat_shape@[d as int] == seq_prod(flat_shape@.skip(d as int)))
                by (nonlinear_arith)
                requires
                    expected as int == seq_prod(flat_shape@.skip(d + 1)),
                    seq_prod(flat_shape@.skip(d as int))
                        == flat_shape@[d as int] * seq_prod(flat_shape@.skip(d + 1)),
            ;
        }
        expected = expected * flat_shape[d];
        k = k + 1;
    }
    true
}

impl Clone for Layout {
    /// A clone has the same model.
    fn clone(&self) -> (r: Layout)
        ensures
            r.shape@ == self.shape@,
            r.stride@ == self.stride@,
            r.contig == self.contig,
    {
        Layout { shape: self.shape.clone(), stride: self.stride.clone(), contig: self.contig }
    }
}

impl Layout {
    /// Whether the stride tree is congruent with the shape tree.
    pub open spec fn wf(self) -> bool {
        self.stride@.congruent(self.shape@)
    }

    /// Build a layout from a shape, deriving the strides by the policy.
    /// A freshly built layout is marked contiguous.
    pub fn new<P: LayoutPolicy>(shape: Shape) -> (r: Layout)
        requires
            shape@.leaves_pos(),
            shape@.size_spec() <= usize::MAX,
        ensures
            r.shape@ == shape@,
            r.contig == true,
            r.wf(),
            r.stride@.flat().len() == shape@.flat().len(),
            forall|d: int|
                0 <= d < r.stride@.flat().len() ==> (#[trigger] r.stride@.flat()[d]) as int
                    == P::stride_flat(shape@.flat(), d),
    {
        let stride = P::make_stride(&shape);
        Layout { shape, stride, contig: true }
    }

    /// A row-major layout over the shape.
    pub fn row_major(shape: Shape) -> (r: Layout)
        requires
            shape@.leaves_pos(),
            shape@.size_spec() <= usize::MAX,
        ensures
            r.shape@ == shape@,
            r.contig == true,
            r.wf(),
            is_rm_flat(r.stride@.flat(), shape@.flat()),
    {
        let r = Layout::new::<RowMajor>(shape);
        r
    }

    /// A column-major layout over the shape.
    pub fn col_major(shape: Shape) -> (r: Layout)
        requires
            shape@.leaves_pos(),
            shape@.size_spec() <= usize::MAX,
        ensures
            r.shape@ == shape@,
            r.contig == true,
            r.wf(),
            is_cm_flat(r.stride@.flat(), shape@.flat()),
    {
        let r = Layout::new::<ColMajor>(shape);
        r
    }

    /// Build a layout from an explicit shape and stride pair, deriving
    /// the contiguity flag by inspection.  Used for sub-views, whose
    /// strides are inherited rather than canonical.
    pub fn with_shape_stride(shape: Shape, stride: Tuple) -> (r: Layout)
        requires
            shape@.leaves_pos(),
            shape@.size_spec() <= usize::MAX,
            stride@.flat().len() == shape@.flat().len(),
        ensures
            r.shape@ == shape@,
            r.stride@ == stride@,
            r.contig == is_rm_flat(stride@.flat(), shape@.flat()),
    {
        let contig = is_layout_contig(&shape, &stride);
        Layout { shape, stride, contig }
    }

    /// The shape of the layout.
    pub fn shape(&self) -> (r: &Shape)
        ensures
            *r == self.shape,
    {
        &self.shape
    }

    /// The stride tree of the layout.
    pub fn stride(&self) -> (r: &Tuple)
        ensures
            *r == self.stride,
    {
        &self.stride
    }

    /// Total number of addressable elements.
    pub fn size(&self) -> (r: usize)
        requires
            crate::tuple::size_ok(self.shape@),
        ensures
            r == self.shape@.size_spec(),
    {
        self.shape.size()
    }

    /// Number of top-level modes of the shape.
    pub fn rank(&self) -> (r: usize)
        ensures
            r == self.shape@.rank_spec(),
    {
        self.shape.rank()
    }

    /// The contiguity flag derived at construction.
    pub fn is_contiguous(&self) -> (r: bool)
        ensures
            r == self.contig,
    {
        self.contig
    }

    /// Map a coordinate to its linear offset: the hierarchical dot
    /// product of the coordinate with the stride tree.
    pub fn crd2idx(&self, crd: &Tuple) -> (r: usize)
        requires
            crd@.congruent(self.stride@),
            crd@.dot_spec(self.stride@) <= usize::MAX,
        ensures
            r == crd@.dot_spec(self.stride@),
    {
        crd.dot(&self.stride)
    }
}

/// Sum of `(extent - 1) * stride` over two matched leaf runs.
pub open spec fn leaf_cosum(sz: Seq<usize>, st: Seq<usize>) -> int
    decreases sz.len(),
{
    if sz.len() == 0 {
        0
    } else {
        leaf_cosum(sz.drop_last(), st.drop_last()) + (sz.last() - 1) * st.last()
    }
}

/// Upper bound of the addressable range: resolved through the last
/// child at every branching level.
pub open spec fn cosize_spec(sh: TupleView, st: TupleView) -> int
    decreases sh,
{
    match (sh, st) {
        (TupleView::Leaf(a), TupleView::Leaf(b)) => leaf_cosum(a, b) + 1,
        (TupleView::Node(a), TupleView::Node(b)) => if a.len() == 0 {
            0
        } else {
            cosize_spec(a.last(), b.last())
        },
        _ => 0,
    }
}

/// What the cosize walk needs along its last-child path: matched pair
/// forms, positive extents at the visited leaf, no empty branch, and a
/// bound that keeps the sum within `usize`.
pub open spec fn cosize_ok(sh: TupleView, st: TupleView) -> bool
    decreases sh,
{
    match (sh, st) {
        (TupleView::Leaf(a), TupleView::Leaf(b)) => {
            &&& a.len() == b.len()
            &&& all_pos(a)
            &&& leaf_cosum(a, b) + 1 <= usize::MAX
        }
        (TupleView::Node(a), TupleView::Node(b)) => {
            &&& a.len() > 0
            &&& b.len() > 0
            &&& cosize_ok(a.last(), b.last())
        }
        _ => false,
    }
}

proof fn lemma_leaf_cosum_take(sz: Seq<usize>, st: Seq<usize>, i: int)
    requires
        sz.len() == st.len(),
        0 <= i < sz.len(),
    ensures
        leaf_cosum(sz.take(i + 1), st.take(i + 1))
            == leaf_cosum(sz.take(i), st.take(i)) + (sz[i] - 1) * st[i],
{
    assert(sz.take(i + 1).drop_last() =~= sz.take(i));
    assert(st.take(i + 1).drop_last() =~= st.take(i));
    assert(sz.take(i + 1).last() == sz[i]);
    assert(st.take(i + 1).last() == st[i]);
}

proof fn lemma_leaf_cosum_prefix(sz: Seq<usize>, st: Seq<usize>, i: int)
    requires
        sz.len() == st.len(),
        all_pos(sz),
        0 <= i <= sz.len(),
    ensures
        leaf_cosum(sz.take(i), st.take(i)) <= leaf_cosum(sz, st),
    decreases sz.len() - i,
{
    if i == sz.len() {
        assert(sz.take(i) =~= sz);
        assert(st.take(i) =~= st);
    } else {
        lemma_leaf_cosum_take(sz, st, i);
        lemma_leaf_cosum_prefix(sz, st, i + 1);
        assert((sz[i] - 1) * st[i] >= 0) by (nonlinear_arith)
            requires
                sz[i] >= 1,
                st[i] >= 0,
        ;
    }
}

proof fn lemma_leaf_cosum_nonneg(sz: Seq<usize>, st: Seq<usize>)
    requires
        all_pos(sz),
    ensures
        leaf_cosum(sz, st) >= 0,
    decreases sz.len(),
{
    if sz.len() > 0 {
        assert(all_pos(sz.drop_last()));
        lemma_leaf_cosum_nonneg(sz.drop_last(), st.drop_last());
        assert((sz.last() - 1) * st.last() >= 0) by (nonlinear_arith)
            requires
                sz.last() >= 1,
                st.last() >= 0,
        ;
    }
}

/// Recursive cosize walk.
fn cosize_rec(sh: &Tuple, st: &Tuple) -> (r: usize)
    requires
        cosize_ok(sh@, st@),
    ensures
        r == cosize_spec(sh@, st@),
    decreases *sh,
{
    match (sh, st) {
        (Tuple::Int(sizes), Tuple::Int(strides)) => {
            let n = sizes.len();
            let mut sum: usize = 0;
            let mut i: usize = 0;
            proof {
                assert(sizes@.take(0).len() == 0);
            }
            while i < n
                invariant
                    *sh == Tuple::Int(*sizes),
                    *st == Tuple::Int(*strides),
                    sh@ == TupleView::Leaf(sizes@),
                    st@ == TupleView::Leaf(strides@),
                    sizes@.len() == n,
                    strides@.len() == n,
                    all_pos(sizes@),
                    leaf_cosum(sizes@, strides@) + 1 <= usize::MAX,
                    0 <= i <= n,
                    sum as int == leaf_cosum(sizes@.take(i as int), strides@.take(i as int)),
                decreases n - i,
            {
                proof {
                    lemma_leaf_cosum_take(sizes@, strides@, i as int);
                    lemma_leaf_cosum_prefix(sizes@, strides@, i + 1);
                    lemma_leaf_cosum_nonneg(
                        sizes@.take(i as int),
                        strides@.take(i as int),
                    );
                }
                sum = sum + (sizes[i] - 1) * strides[i];
                i = i + 1;
            }
            proof {
                assert(sizes@.take(n as int) =~= sizes@);
                assert(strides@.take(n as int) =~= strides@);
                lemma_leaf_cosum_nonneg(sizes@, strides@);
            }
            sum + 1
        }
        (Tuple::Tup(shs), Tuple::Tup(sts)) => {
            proof {
                lemma_node_views_len(shs@);
                lemma_node_views_len(sts@);
                lemma_node_views_index(shs@, shs@.len() - 1);
                lemma_node_views_index(sts@, sts@.len() - 1);
                assert(decreases_to!(*sh => sh->Tup_0));
                assert(sh->Tup_0 == *shs);
                assert(decreases_to!(*shs => shs@));
                assert(decreases_to!(shs@ => shs@[shs@.len() - 1]));
                assert(decreases_to!(*sh => shs@[shs@.len() - 1]));
            }
            let i = shs.len() - 1;
            let j = sts.len() - 1;
            cosize_rec(&shs[i], &sts[j])
        }
        _ => {
            proof {
                assert(false);
            }
            0
        }
    }
}

/// The recursive index decomposition: peel each (extent, stride) leaf
/// pair off the running index in traversal order.
fn idx2crd_rec(shape: &Tuple, stride: &Tuple, idx: &mut usize) -> (r: Tuple)
    requires
        stride@.congruent(shape@),
        decomp_ok(*old(idx) as int, shape@.flat(), stride@.flat()),
    ensures
        r@.congruent(shape@),
        r@.flat().len() == shape@.flat().len(),
        forall|d: int|
            0 <= d < r@.flat().len() ==> (#[trigger] r@.flat()[d]) as int
                == decomp_digits(*old(idx) as int, stride@.flat())[d],
        *final(idx) as int == decomp_rem(*old(idx) as int, stride@.flat()),
    decreases *shape,
{
    let ghost i0 = *idx as int;
    match (shape, stride) {
        (Tuple::Int(sz), Tuple::Int(stv)) => {
            let n = sz.len();
            let mut out: Vec<usize> = Vec::new();
            let mut k: usize = 0;
            proof {
                lemma_decomp_len(i0, stv@);
                assert(stv@.take(0).len() == 0);
            }
            while k < n
                invariant
                    *shape == Tuple::Int(*sz),
                    *stride == Tuple::Int(*stv),
                    shape@ == TupleView::Leaf(sz@),
                    stride@ == TupleView::Leaf(stv@),
                    sz@.len() == n,
                    stv@.len() == n,
                    decomp_ok(i0, sz@, stv@),
                    0 <= k <= n,
                    out@.len() == k,
                    forall|d: int|
                        0 <= d < k ==> (#[trigger] out@[d]) as int
                            == decomp_digits(i0, stv@)[d],
                    *idx as int == decomp_rem(i0, stv@.take(k as int)),
                decreases n - k,
            {
                let cur = *idx;
                proof {
                    assert(sz@ =~= sz@.take(k as int) + sz@.skip(k as int));
                    assert(stv@ =~= stv@.take(k as int) + stv@.skip(k as int));
                    lemma_decomp_ok_concat(
                        i0,
                        sz@.take(k as int),
                        sz@.skip(k as int),
                        stv@.take(k as int),
                        stv@.skip(k as int),
                    );
                    assert(decomp_ok(i0, sz@, stv@)
                        == decomp_ok(
                        i0,
                        sz@.take(k as int) + sz@.skip(k as int),
                        stv@.take(k as int) + stv@.skip(k as int),
                    ));
                    assert(decomp_ok(cur as int, sz@.skip(k as int), stv@.skip(k as int)));
                    assert(stv@.skip(k as int)[0] == stv@[k as int]);
                    assert(sz@.skip(k as int)[0] == sz@[k as int]);
                    lemma_fundamental_div_mod(cur as int, stv@[k as int] as int);
                    lemma_mod_bound(cur as int, stv@[k as int] as int);
                    assert(stv@[k as int] * (cur as int / stv@[k as int] as int)
                        == (cur as int / stv@[k as int] as int) * stv@[k as int])
                        by (nonlinear_arith);
                    // the digit written at position k
                    lemma_decomp_concat(i0, stv@.take(k as int), stv@.skip(k as int));
                    lemma_decomp_len(i0, stv@.take(k as int));
                    assert(decomp_digits(i0, stv@)[k as int]
                        == decomp_digits(cur as int, stv@.skip(k as int))[0]);
                }
                let s = stv[k];
                let v = cur / s;
                *idx = cur - v * s;
                out.push(v);
                proof {
                    assert(*idx as int == cur as int % (s as int));
                    // the remainder after one more stride
                    assert(stv@.take(k + 1) =~= stv@.take(k as int) + seq![stv@[k as int]]);
                    lemma_decomp_concat(i0, stv@.take(k as int), seq![stv@[k as int]]);
                    assert(seq![stv@[k as int]].drop_first()
                        =~= Seq::<usize>::empty());
                    assert(decomp_rem(cur as int, seq![stv@[k as int]])
                        == decomp_rem(cur as int % (s as int), Seq::<usize>::empty()));
                    assert(decomp_rem(i0, stv@.take(k + 1)) == cur as int % (s as int));
                }
                k = k + 1;
            }
            proof {
                assert(stv@.take(n as int) =~= stv@);
            }
            Tuple::Int(out)
        }
        (Tuple::Tup(shs), Tuple::Tup(sts)) => {
            let ghost sshv = node_views(shs@);
            let ghost sstv = node_views(sts@);
            let n = shs.len();
            let mut out: Vec<Tuple> = Vec::new();
            let mut i: usize = 0;
            proof {
                lemma_node_views_len(shs@);
                lemma_node_views_len(sts@);
                assert(sstv.take(0).len() == 0);
                assert(flat_cat(sstv.take(0)).len() == 0);
                assert(flat_cat(sshv.take(0)).len() == 0);
                lemma_decomp_len(i0, stride@.flat());
            }
            while i < n
                invariant
                    *shape == Tuple::Tup(*shs),
                    *stride == Tuple::Tup(*sts),
                    shape@ == TupleView::Node(sshv),
                    stride@ == TupleView::Node(sstv),
                    sshv == node_views(shs@),
                    sstv == node_views(sts@),
                    sshv.len() == n,
                    sstv.len() == n,
                    shs@.len() == n,
                    sts@.len() == n,
                    nodes_congruent(sstv, sshv),
                    decomp_ok(i0, flat_cat(sshv), flat_cat(sstv)),
                    0 <= i <= n,
                    out@.len() == i,
                    nodes_congruent(node_views(out@), sshv.take(i as int)),
                    flat_cat(node_views(out@)).len() == flat_cat(sstv.take(i as int)).len(),
                    forall|d: int|
                        0 <= d < flat_cat(node_views(out@)).len()
                            ==> (#[trigger] flat_cat(node_views(out@))[d]) as int
                                == decomp_digits(i0, flat_cat(sstv))[d],
                    *idx as int == decomp_rem(i0, flat_cat(sstv.take(i as int))),
                decreases n - i,
            {
                let ghost cur = *idx as int;
                proof {
                    assert(decreases_to!(*shape => shape->Tup_0));
                    assert(shape->Tup_0 == *shs);
                    assert(decreases_to!(*shs => shs@));
                    assert(decreases_to!(shs@ => shs@[i as int]));
                    assert(decreases_to!(*shape => shs@[i as int]));
                    lemma_node_views_index(shs@, i as int);
                    lemma_node_views_index(sts@, i as int);
                    lemma_nodes_congruent_index(sstv, sshv, i as int);
                    crate::tuple::lemma_nodes_congruent_parts(sstv, sshv, i as int);
                    crate::tuple::lemma_nodes_congruent_parts(sstv, sshv, i + 1);
                    crate::tuple::lemma_congruent_flat_len_seq(
                        sstv.take(i as int),
                        sshv.take(i as int),
                    );
                    lemma_congruent_flat_len(sstv[i as int], sshv[i as int]);
                    // split the whole flattened stride at this child
                    lemma_flat_cat_split(sstv, i as int);
                    lemma_flat_cat_head(sstv.skip(i as int));
                    assert(sstv.skip(i as int)[0] == sstv[i as int]);
                    assert(sstv.skip(i as int).drop_first() =~= sstv.skip(i + 1));
                    lemma_flat_cat_split(sshv, i as int);
                    lemma_flat_cat_head(sshv.skip(i as int));
                    assert(sshv.skip(i as int)[0] == sshv[i as int]);
                    assert(sshv.skip(i as int).drop_first() =~= sshv.skip(i + 1));
                    let fst_pre = flat_cat(sstv.take(i as int));
                    let fsh_pre = flat_cat(sshv.take(i as int));
                    let cf_st = sstv[i as int].flat();
                    let cf_sh = sshv[i as int].flat();
                    let rest_st = flat_cat(sstv.skip(i + 1));
                    let rest_sh = flat_cat(sshv.skip(i + 1));
                    assert(flat_cat(sstv) =~= fst_pre + (cf_st + rest_st));
                    assert(flat_cat(sshv) =~= fsh_pre + (cf_sh + rest_sh));
                    lemma_decomp_ok_concat(
                        i0,
                        fsh_pre,
                        cf_sh + rest_sh,
                        fst_pre,
                        cf_st + rest_st,
                    );
                    assert(decomp_ok(cur, cf_sh + rest_sh, cf_st + rest_st));
                    lemma_decomp_ok_concat(cur, cf_sh, rest_sh, cf_st, rest_st);
                    assert(decomp_ok(cur, cf_sh, cf_st));
                }
                let part = idx2crd_rec(&shs[i], &sts[i], idx);
                let ghost pv = part@;
                let ghost prev = out@;
                out.push(part);
                proof {
                    let fst_pre = flat_cat(sstv.take(i as int));
                    let cf_st = sstv[i as int].flat();
                    let rest_st = flat_cat(sstv.skip(i + 1));
                    assert(out@.drop_last() =~= prev);
                    assert(node_views(out@) == node_views(prev).push(pv));
                    assert(node_views(out@).drop_last() =~= node_views(prev));
                    assert(node_views(out@).last() == pv);
                    assert(flat_cat(node_views(out@))
                        == flat_cat(node_views(prev)) + pv.flat());
                    assert(sshv.take(i + 1).drop_last() =~= sshv.take(i as int));
                    assert(sshv.take(i + 1).last() == sshv[i as int]);
                    assert(nodes_congruent(node_views(out@), sshv.take(i + 1)));
                    // digit positions of the new entries
                    lemma_decomp_concat(i0, fst_pre, cf_st + rest_st);
                    lemma_decomp_concat(cur, cf_st, rest_st);
                    lemma_decomp_len(i0, fst_pre);
                    lemma_decomp_len(cur, cf_st);
                    assert(flat_cat(sstv) =~= fst_pre + (cf_st + rest_st));
                    assert(decomp_rem(i0, fst_pre) == cur);
                    assert(decomp_digits(i0, flat_cat(sstv))
                        =~= decomp_digits(i0, fst_pre)
                            + (decomp_digits(cur, cf_st) + decomp_digits(
                            decomp_rem(cur, cf_st),
                            rest_st,
                        )));
                    lemma_congruent_flat_len(pv, sshv[i as int]);
                    lemma_congruent_flat_len(sstv[i as int], sshv[i as int]);
                    assert forall|d: int| 0 <= d < flat_cat(node_views(out@)).len() implies
                        (#[trigger] flat_cat(node_views(out@))[d]) as int
                            == decomp_digits(i0, flat_cat(sstv))[d] by {
                        if d < fst_pre.len() {
                            assert(flat_cat(node_views(out@))[d]
                                == flat_cat(node_views(prev))[d]);
                        } else {
                            let d2 = d - fst_pre.len();
                            assert(flat_cat(node_views(out@))[d] == pv.flat()[d2]);
                            assert(pv.flat()[d2] as int == decomp_digits(cur, cf_st)[d2]);
                            assert(decomp_digits(i0, flat_cat(sstv))[d]
                                == decomp_digits(cur, cf_st)[d2]);
                        }
                    }
                    // the remainder after this child
                    lemma_flat_cat_take_succ(sstv, i as int);
                    assert(flat_cat(sstv.take(i + 1)) =~= fst_pre + cf_st);
                    lemma_decomp_concat(i0, fst_pre, cf_st);
                    assert(decomp_rem(i0, flat_cat(sstv.take(i + 1)))
                        == decomp_rem(cur, cf_st));
                    lemma_flat_cat_take_succ(sshv, i as int);
                }
                i = i + 1;
            }
            proof {
                assert(sstv.take(n as int) =~= sstv);
                assert(sshv.take(n as int) =~= sshv);
                crate::tuple::lemma_congruent_flat_len_seq(sstv, sshv);
            }
            Tuple::Tup(out)
        }
        _ => {
            proof {
                assert(false);
            }
            Tuple::Int(Vec::new())
        }
    }
}

impl Layout {
    /// The greatest linear offset the layout can produce, plus one.
    pub fn cosize(&self) -> (r: usize)
        requires
            cosize_ok(self.shape@, self.stride@),
        ensures
            r == cosize_spec(self.shape@, self.stride@),
    {
        cosize_rec(&self.shape.dims, &self.stride)
    }

    /// Map a linear index back to a coordinate by decomposing it
    /// against each (extent, stride) leaf pair in traversal order.
    pub fn idx2crd(&self, idx: usize) -> (r: Tuple)
        requires
            self.wf(),
            decomp_ok(idx as int, self.shape@.flat(), self.stride@.flat()),
        ensures
            r@.congruent(self.shape@),
            r@.flat().len() == self.shape@.flat().len(),
            forall|d: int|
                0 <= d < r@.flat().len() ==> (#[trigger] r@.flat()[d]) as int
                    == decomp_digits(idx as int, self.stride@.flat())[d],
    {
        let mut k = idx;
        let r = idx2crd_rec(&self.shape.dims, &self.stride, &mut k);
        proof {
            lemma_congruent_flat_len(self.stride@, self.shape@);
        }
        r
    }
}

/// A layout whose contiguity flag was derived by inspection (as
/// `with_shape_stride` derives it for sub-views) reports contiguous as
/// false as soon as one inherited stride deviates from the dense
/// suffix products of its shape -- a window sliced out of a larger
/// buffer keeps the parent's outer stride and is caught here.
pub proof fn lemma_window_contiguity(win: Layout, d: int)
    requires
        win.contig == is_rm_flat(win.stride@.flat(), win.shape@.flat()),
        0 <= d < win.stride@.flat().len(),
        win.stride@.flat()[d] as int != seq_prod(win.shape@.flat().skip(d + 1)),
    ensures
        !win.contig,
{
}

/// On a row-major layout, every linear index below the size can be
/// decomposed: `idx2crd`'s precondition holds of it.
pub proof fn lemma_row_major_admits_every_index(lt: Layout, i: int)
    requires
        lt.wf(),
        is_rm_flat(lt.stride@.flat(), lt.shape@.flat()),
        0 <= i < lt.shape@.size_spec(),
    ensures
        decomp_ok(i, lt.shape@.flat(), lt.stride@.flat()),
{
    lemma_size_is_flat_prod(lt.shape@);
    crate::radix::lemma_rm_round_trip(i, lt.shape@.flat(), lt.stride@.flat());
}

/// Round trip of the coordinate maps: on a row-major layout every
/// linear index below the size decomposes to an in-range coordinate,
/// and the dot product of that coordinate with the strides restores the
/// index.  Phrased over the contracts of `idx2crd` and `crd2idx`: any
/// coordinate meeting `idx2crd`'s postcondition for `i` meets
/// `crd2idx`'s precondition and maps back to `i`.
pub proof fn lemma_row_major_round_trip(lt: Layout, crd: TupleView, i: int)
    requires
        lt.wf(),
        is_rm_flat(lt.stride@.flat(), lt.shape@.flat()),
        0 <= i < lt.shape@.size_spec(),
        crd.congruent(lt.shape@),
        crd.flat().len() == lt.shape@.flat().len(),
        forall|d: int|
            0 <= d < crd.flat().len() ==> (#[trigger] crd.flat()[d]) as int
                == decomp_digits(i, lt.stride@.flat())[d],
    ensures
        decomp_ok(i, lt.shape@.flat(), lt.stride@.flat()),
        crd.congruent(lt.stride@),
        crd.dot_spec(lt.stride@) == i,
{
    lemma_size_is_flat_prod(lt.shape@);
    crate::radix::lemma_rm_round_trip(i, lt.shape@.flat(), lt.stride@.flat());
    crate::tuple::lemma_congruent_sym(lt.stride@, lt.shape@);
    lemma_congruent_trans(crd, lt.shape@, lt.stride@);
    crate::tuple::lemma_dot_flat(crd, lt.stride@);
    lemma_decomp_len(i, lt.stride@.flat());
    lemma_congruent_flat_len(lt.stride@, lt.shape@);
    crate::tuple::lemma_leaf_dot_recompose(
        crd.flat(),
        decomp_digits(i, lt.stride@.flat()),
        lt.stride@.flat(),
    );
}

/// Start coordinates of the one trailing remainder block, per
/// dimension: where the tiler does not divide the extent evenly, the
/// largest tile multiple below it; elsewhere zero.
pub open spec fn rest_start(lf: Seq<usize>, tf: Seq<usize>) -> Seq<usize> {
    Seq::new(
        lf.len(),
        |d: int|
            if lf[d] as int % tf[d] as int != 0 {
                (tf[d] * (lf[d] as int / tf[d] as int)) as usize
            } else {
                0
            },
    )
}

impl Layout {
    /// Enumerate the start coordinates of the full tiles only: the
    /// cartesian product of the integer-quotient grid, each position
    /// scaled by the tile extent.  A trailing remainder along any
    /// dimension is excluded.
    pub fn tile_iter(&self, tiler: &Layout) -> (r: crate::layout_iter::LayoutIterator)
        requires
            tiler.shape@.congruent(self.shape@),
            forall|d: int|
                0 <= d < tiler.shape@.flat().len() ==> (1 <= #[trigger] tiler.shape@.flat()[d]
                    && tiler.shape@.flat()[d] <= self.shape@.flat()[d]),
            self.shape@.size_spec() <= usize::MAX,
        ensures
            r.wf(),
            !r.done,
            r.step@ == tiler.shape@.flat(),
            r.grid() =~= crate::radix::quot_seq(self.shape@.flat(), tiler.shape@.flat()),
            r.iter_index() == 0,
    {
        let ghost lf = self.shape@.flat();
        let ghost tf = tiler.shape@.flat();
        let flat = crate::layout_algebra::flat_divide(self, tiler);
        let total_dims = flat.shape.dims.flatten();
        let tile_len = tiler.shape.dims.flat_len();
        proof {
            lemma_congruent_flat_len(tiler.shape@, self.shape@);
            assert(total_dims@ == tf + crate::radix::quot_seq(lf, tf));
        }
        let m = total_dims.len();
        let n = m - tile_len;
        let mut step: Vec<usize> = Vec::new();
        let mut limit: Vec<usize> = Vec::new();
        let mut current: Vec<usize> = Vec::new();
        let mut d: usize = 0;
        while d < n
            invariant
                total_dims@ == tf + crate::radix::quot_seq(lf, tf),
                m as int == tile_len + n,
                total_dims@.len() == m,
                tf.len() == tile_len,
                lf.len() == tile_len,
                total_dims@.len() == tile_len + n,
                n == tile_len,
                forall|j: int|
                    0 <= j < tf.len() ==> (1 <= #[trigger] tf[j] && tf[j] <= lf[j]),
                0 <= d <= n,
                step@.len() == d,
                limit@.len() == d,
                current@.len() == d,
                forall|j: int| 0 <= j < d ==> #[trigger] step@[j] == tf[j],
                forall|j: int|
                    0 <= j < d ==> (#[trigger] limit@[j]) as int == tf[j]
                        * (lf[j] as int / tf[j] as int),
                forall|j: int| 0 <= j < d ==> #[trigger] current@[j] == 0,
            decreases n - d,
        {
            let t = total_dims[d];
            let g = total_dims[tile_len + d];
            proof {
                assert(total_dims@[d as int] == tf[d as int]);
                assert(total_dims@[tile_len + d] == crate::radix::quot_seq(lf, tf)[d as int]);
                let q = lf[d as int] as int / tf[d as int] as int;
                lemma_fundamental_div_mod(lf[d as int] as int, tf[d as int] as int);
                lemma_mod_bound(lf[d as int] as int, tf[d as int] as int);
                vstd::arithmetic::div_mod::lemma_div_pos_is_pos(
                    lf[d as int] as int,
                    tf[d as int] as int,
                );
                assert(g as int == q);
                assert(t as int == tf[d as int]);
                assert(tf[d as int] * q <= lf[d as int]);
                assert(t as int * (g as int) <= lf[d as int]);
            }
            step.push(t);
            limit.push(t * g);
            current.push(0);
            d = d + 1;
        }
        let r = crate::layout_iter::LayoutIterator { limit, step, current, done: false };
        proof {
            assert(r.step@ =~= tf);
            assert forall|j: int| 0 <= j < r.limit@.len() implies (1 <= #[trigger] r.step@[j]
                && r.limit@[j] as int % r.step@[j] as int == 0
                && r.current@[j] as int % r.step@[j] as int == 0) by {
                let q = lf[j] as int / tf[j] as int;
                vstd::arithmetic::div_mod::lemma_mod_multiples_basic(q, tf[j] as int);
                assert(q * (tf[j] as int) == (tf[j] as int) * q) by (nonlinear_arith);
                vstd::arithmetic::div_mod::lemma_small_mod(0, tf[j] as nat);
            }
            assert(r.grid() =~= crate::radix::quot_seq(lf, tf)) by {
                assert forall|j: int| 0 <= j < r.grid().len() implies
                    #[trigger] r.grid()[j] == crate::radix::quot_seq(lf, tf)[j] by {
                    let q = lf[j] as int / tf[j] as int;
                    vstd::arithmetic::div_mod::lemma_div_multiples_vanish(q, tf[j] as int);
                    assert(r.limit@[j] as int == (tf[j] as int) * q);
                }
            }
            assert(crate::radix::in_range(r.digits(), r.grid())) by {
                assert forall|j: int| 0 <= j < r.grid().len() implies
                    (0 <= #[trigger] r.digits()[j] && r.digits()[j] < r.grid()[j]) by {
                    assert(r.current@[j] == 0);
                    vstd::arithmetic::div_mod::lemma_div_multiples_vanish(0, r.step@[j] as int);
                    assert((r.step@[j] as int) * 0 == 0) by (nonlinear_arith);
                    assert(r.digits()[j] == 0);
                    vstd::arithmetic::div_mod::lemma_div_non_zero(
                        lf[j] as int,
                        tf[j] as int,
                    );
                    assert(r.grid()[j] == crate::radix::quot_seq(lf, tf)[j]);
                }
            }
            crate::radix::lemma_encode_zero(r.digits(), r.grid());
        }
        r
    }

    /// Report the start coordinates of the one leftover remainder
    /// block, if any dimension has one; otherwise the enumeration is
    /// empty.
    pub fn rest_iter(&self, tiler: &Layout) -> (r: crate::layout_iter::LayoutIterator)
        requires
            tiler.shape@.congruent(self.shape@),
            forall|d: int|
                0 <= d < tiler.shape@.flat().len() ==> (1 <= #[trigger] tiler.shape@.flat()[d]
                    && tiler.shape@.flat()[d] <= self.shape@.flat()[d]),
            self.shape@.size_spec() <= usize::MAX,
        ensures
            r.wf(),
            ({
                let lf = self.shape@.flat();
                let tf = tiler.shape@.flat();
                if exists|d: int|
                    0 <= d < lf.len() && #[trigger] (lf[d] as int % tf[d] as int) != 0 {
                    &&& !r.done
                    &&& r.current@ =~= rest_start(lf, tf)
                    &&& r.total() - r.iter_index() == 1
                } else {
                    r.done
                }
            }),
    {
        let ghost lf = self.shape@.flat();
        let ghost tf = tiler.shape@.flat();
        let lfv = self.shape.dims.flatten();
        let tfv = tiler.shape.dims.flatten();
        proof {
            lemma_congruent_flat_len(tiler.shape@, self.shape@);
        }
        let n = lfv.len();
        let mut start: Vec<usize> = Vec::new();
        let mut limit: Vec<usize> = Vec::new();
        let mut step: Vec<usize> = Vec::new();
        let mut any = false;
        let mut d: usize = 0;
        while d < n
            invariant
                lfv@ == lf,
                tfv@ == tf,
                lf.len() == n,
                tf.len() == n,
                forall|j: int|
                    0 <= j < tf.len() ==> (1 <= #[trigger] tf[j] && tf[j] <= lf[j]),
                0 <= d <= n,
                start@.len() == d,
                limit@.len() == d,
                step@.len() == d,
                forall|j: int| 0 <= j < d ==> #[trigger] start@[j] == rest_start(lf, tf)[j],
                forall|j: int|
                    0 <= j < d ==> (#[trigger] limit@[j]) as int == rest_start(lf, tf)[j] + 1,
                forall|j: int| 0 <= j < d ==> #[trigger] step@[j] == 1,
                any == exists|j: int|
                    0 <= j < d && #[trigger] (lf[j] as int % tf[j] as int) != 0,
            decreases n - d,
        {
            proof {
                lemma_fundamental_div_mod(lf[d as int] as int, tf[d as int] as int);
                lemma_mod_bound(lf[d as int] as int, tf[d as int] as int);
            }
            let q = lfv[d] / tfv[d];
            let rem = lfv[d] % tfv[d];
            let sd = if rem != 0 {
                tfv[d] * q
            } else {
                0
            };
            start.push(sd);
            limit.push(sd + 1);
            step.push(1);
            if rem != 0 {
                any = true;
            }
            d = d + 1;
        }
        let r = crate::layout_iter::LayoutIterator {
            limit,
            step,
            current: start,
            done: !any,
        };
        proof {
            assert forall|j: int| 0 <= j < r.limit@.len() implies (1 <= #[trigger] r.step@[j]
                && r.limit@[j] as int % r.step@[j] as int == 0
                && r.current@[j] as int % r.step@[j] as int == 0) by {
                lemma_fundamental_div_mod(r.limit@[j] as int, 1);
                lemma_mod_bound(r.limit@[j] as int, 1);
                lemma_fundamental_div_mod(r.current@[j] as int, 1);
                lemma_mod_bound(r.current@[j] as int, 1);
            }
            assert forall|j: int| 0 <= j < n implies (#[trigger] r.digits()[j]
                == r.current@[j] && r.grid()[j] as int == r.current@[j] + 1) by {
                lemma_fundamental_div_mod(r.current@[j] as int, 1);
                lemma_mod_bound(r.current@[j] as int, 1);
                lemma_fundamental_div_mod(r.limit@[j] as int, 1);
                lemma_mod_bound(r.limit@[j] as int, 1);
            }
            if any {
                assert(crate::radix::in_range(r.digits(), r.grid()));
                assert forall|j: int| 0 <= j < n implies
                    r.digits()[j] == r.grid()[j] - 1 by {}
                assert(crate::radix::all_pos(r.grid())) by {
                    assert forall|j: int| 0 <= j < r.grid().len() implies
                        1 <= r.grid()[j] by {
                        assert(r.grid()[j] as int == r.current@[j] + 1);
                    }
                }
                crate::radix::lemma_encode_all_max(r.digits(), r.grid());
                crate::radix::lemma_seq_prod_pos(r.grid());
                assert(r.current@ =~= rest_start(lf, tf));
            }
        }
        r
    }
}

} // verus!
