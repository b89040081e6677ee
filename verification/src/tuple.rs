use vstd::prelude::*;
use crate::radix::seq_prod;

verus! {

/// Hierarchical integer structure: a leaf holds an ordered run of
/// extents (or strides), a branch holds nested tuples.
#[derive(Debug, PartialEq, Eq)]
pub enum Tuple {
    Int(Vec<usize>),
    Tup(Vec<Tuple>),
}

/// Mathematical model of a [`Tuple`]: the same leaf-or-tree structure
/// over `Seq`.
#[verifier::ext_equal]
pub enum TupleView {
    Leaf(Seq<usize>),
    Node(Seq<TupleView>),
}

/// Views of a run of tuples, in order.
pub open spec fn node_views(ts: Seq<Tuple>) -> Seq<TupleView>
    decreases ts,
{
    if ts.len() == 0 {
        Seq::empty()
    } else {
        node_views(ts.drop_last()).push(tuple_view(ts.last()))
    }
}

/// The model of a tuple.
pub open spec fn tuple_view(t: Tuple) -> TupleView
    decreases t,
{
    match t {
        Tuple::Int(v) => TupleView::Leaf(v@),
        Tuple::Tup(vs) => TupleView::Node(node_views(vs@)),
    }
}

impl View for Tuple {
    type V = TupleView;

    open spec fn view(&self) -> TupleView {
        tuple_view(*self)
    }
}

pub proof fn lemma_node_views_len(ts: Seq<Tuple>)
    ensures
        node_views(ts).len() == ts.len(),
    decreases ts,
{
    if ts.len() > 0 {
        lemma_node_views_len(ts.drop_last());
    }
}

pub proof fn lemma_node_views_index(ts: Seq<Tuple>, i: int)
    requires
        0 <= i < ts.len(),
    ensures
        node_views(ts).len() == ts.len(),
        node_views(ts)[i] == tuple_view(ts[i]),
    decreases ts,
{
    lemma_node_views_len(ts);
    if i < ts.len() - 1 {
        lemma_node_views_index(ts.drop_last(), i);
        assert(ts.drop_last()[i] == ts[i]);
    }
}

impl TupleView {
    /// Number of entries at the top level.
    pub open spec fn arity(self) -> int {
        match self {
            TupleView::Leaf(v) => v.len() as int,
            TupleView::Node(vs) => vs.len() as int,
        }
    }

    /// Nesting depth: zero for a leaf.
    pub open spec fn depth_spec(self) -> int
        decreases self,
    {
        match self {
            TupleView::Leaf(_) => 0,
            TupleView::Node(vs) => 1 + max_depth(vs),
        }
    }

    /// The leaf entries in order.
    pub open spec fn flat(self) -> Seq<usize>
        decreases self,
    {
        match self {
            TupleView::Leaf(v) => v,
            TupleView::Node(vs) => flat_cat(vs),
        }
    }

    /// Product of all leaf entries.
    pub open spec fn size_spec(self) -> int
        decreases self,
    {
        match self {
            TupleView::Leaf(v) => seq_prod(v),
            TupleView::Node(vs) => sizes_prod(vs),
        }
    }

    /// The entry at `i`, itself a tuple.
    pub open spec fn get_spec(self, i: int) -> TupleView {
        match self {
            TupleView::Leaf(v) => TupleView::Leaf(seq![v[i]]),
            TupleView::Node(vs) => vs[i],
        }
    }

    /// Both trees branch identically at every depth and their leaf
    /// runs have the same lengths.
    pub open spec fn congruent(self, other: TupleView) -> bool
        decreases self,
    {
        match (self, other) {
            (TupleView::Leaf(a), TupleView::Leaf(b)) => a.len() == b.len(),
            (TupleView::Node(a), TupleView::Node(b)) => nodes_congruent(a, b),
            _ => false,
        }
    }

    /// Hierarchical inner product with a congruent tree.
    pub open spec fn dot_spec(self, other: TupleView) -> int
        decreases self,
    {
        match (self, other) {
            (TupleView::Leaf(a), TupleView::Leaf(b)) => leaf_dot(a, b),
            (TupleView::Node(a), TupleView::Node(b)) => node_dot(a, b),
            _ => 0,
        }
    }

    /// Every leaf entry is at least one.
    pub open spec fn leaves_pos(self) -> bool
        decreases self,
    {
        match self {
            TupleView::Leaf(v) => crate::radix::all_pos(v),
            TupleView::Node(vs) => nodes_pos(vs),
        }
    }

    /// The whole tree is made of leaves of this one run.
    pub open spec fn is_leaf(self) -> bool {
        self is Leaf
    }
}

/// Greatest depth over a run of trees, or zero when it is empty.
pub open spec fn max_depth(vs: Seq<TupleView>) -> int
    decreases vs,
{
    if vs.len() == 0 {
        0
    } else {
        let rest = max_depth(vs.drop_last());
        let last = vs.last().depth_spec();
        if last >= rest {
            last
        } else {
            rest
        }
    }
}

/// Concatenation of the leaf runs of a run of trees.
pub open spec fn flat_cat(vs: Seq<TupleView>) -> Seq<usize>
    decreases vs,
{
    if vs.len() == 0 {
        Seq::empty()
    } else {
        flat_cat(vs.drop_last()) + vs.last().flat()
    }
}

/// Product of the sizes of a run of trees.
pub open spec fn sizes_prod(vs: Seq<TupleView>) -> int
    decreases vs,
{
    if vs.len() == 0 {
        1
    } else {
        sizes_prod(vs.drop_last()) * vs.last().size_spec()
    }
}

/// Inner product of two leaf runs.
pub open spec fn leaf_dot(a: Seq<usize>, b: Seq<usize>) -> int
    decreases a.len(),
{
    if a.len() == 0 {
        0
    } else {
        leaf_dot(a.drop_last(), b.drop_last()) + a.last() * b.last()
    }
}

/// Pairwise congruence of two runs of trees, including equal length.
pub open spec fn nodes_congruent(a: Seq<TupleView>, b: Seq<TupleView>) -> bool
    decreases a,
{
    if a.len() != b.len() {
        false
    } else if a.len() == 0 {
        true
    } else {
        nodes_congruent(a.drop_last(), b.drop_last()) && a.last().congruent(b.last())
    }
}

/// Every prefix product of the run stays within `usize`.
pub open spec fn leaf_prods_ok(v: Seq<usize>) -> bool
    decreases v.len(),
{
    if v.len() == 0 {
        true
    } else {
        leaf_prods_ok(v.drop_last()) && seq_prod(v) <= usize::MAX
    }
}

/// Whether the tree product can be evaluated without leaving `usize`,
/// mirroring the order in which [`Tuple::size`] multiplies.
pub open spec fn size_ok(tv: TupleView) -> bool
    decreases tv,
{
    match tv {
        TupleView::Leaf(v) => leaf_prods_ok(v),
        TupleView::Node(vs) => nodes_size_ok(vs),
    }
}

/// The run's sizes can each be computed, and every prefix of their
/// product stays within `usize`.
pub open spec fn nodes_size_ok(vs: Seq<TupleView>) -> bool
    decreases vs,
{
    if vs.len() == 0 {
        true
    } else {
        nodes_size_ok(vs.drop_last()) && size_ok(vs.last()) && sizes_prod(vs) <= usize::MAX
    }
}

pub proof fn lemma_nodes_congruent_index(a: Seq<TupleView>, b: Seq<TupleView>, i: int)
    requires
        nodes_congruent(a, b),
        0 <= i < a.len(),
    ensures
        a.len() == b.len(),
        a[i].congruent(b[i]),
    decreases a,
{
    if i < a.len() - 1 {
        lemma_nodes_congruent_index(a.drop_last(), b.drop_last(), i);
        assert(a.drop_last()[i] == a[i]);
        assert(b.drop_last()[i] == b[i]);
    }
}

pub proof fn lemma_nodes_congruent_intro(a: Seq<TupleView>, b: Seq<TupleView>)
    requires
        a.len() == b.len(),
        forall|i: int| 0 <= i < a.len() ==> #[trigger] a[i].congruent(b[i]),
    ensures
        nodes_congruent(a, b),
    decreases a,
{
    if a.len() > 0 {
        assert forall|i: int| 0 <= i < a.len() - 1 implies
            #[trigger] a.drop_last()[i].congruent(b.drop_last()[i]) by {
            assert(a.drop_last()[i] == a[i]);
            assert(b.drop_last()[i] == b[i]);
        }
        lemma_nodes_congruent_intro(a.drop_last(), b.drop_last());
        assert(a[a.len() - 1].congruent(b[b.len() - 1]));
    }
}

pub proof fn lemma_leaf_prods_ok_take(v: Seq<usize>, k: int)
    requires
        leaf_prods_ok(v),
        0 <= k <= v.len(),
    ensures
        seq_prod(v.take(k)) <= usize::MAX,
    decreases v.len(),
{
    if k == v.len() {
        assert(v.take(k) =~= v);
        if v.len() == 0 {
        }
    } else {
        assert(v.take(k) =~= v.drop_last().take(k));
        lemma_leaf_prods_ok_take(v.drop_last(), k);
    }
}

pub proof fn lemma_nodes_size_ok_index(vs: Seq<TupleView>, i: int)
    requires
        nodes_size_ok(vs),
        0 <= i < vs.len(),
    ensures
        size_ok(vs[i]),
    decreases vs,
{
    if i < vs.len() - 1 {
        lemma_nodes_size_ok_index(vs.drop_last(), i);
        assert(vs.drop_last()[i] == vs[i]);
    }
}

pub proof fn lemma_nodes_size_ok_take(vs: Seq<TupleView>, k: int)
    requires
        nodes_size_ok(vs),
        0 <= k <= vs.len(),
    ensures
        sizes_prod(vs.take(k)) <= usize::MAX,
    decreases vs,
{
    if k == vs.len() {
        assert(vs.take(k) =~= vs);
        if vs.len() == 0 {
        }
    } else {
        assert(vs.take(k) =~= vs.drop_last().take(k));
        lemma_nodes_size_ok_take(vs.drop_last(), k);
    }
}

/// Sum of the dot products over matched children.
pub open spec fn node_dot(a: Seq<TupleView>, b: Seq<TupleView>) -> int
    decreases a,
{
    if a.len() == 0 {
        0
    } else {
        node_dot(a.drop_last(), b.drop_last()) + a.last().dot_spec(b.last())
    }
}


pub proof fn lemma_sizes_prod_take_succ(vs: Seq<TupleView>, i: int)
    requires
        0 <= i < vs.len(),
    ensures
        sizes_prod(vs.take(i + 1)) == sizes_prod(vs.take(i)) * vs[i].size_spec(),
{
    assert(vs.take(i + 1).drop_last() =~= vs.take(i));
    assert(vs.take(i + 1).last() == vs[i]);
}

pub proof fn lemma_flat_cat_take_succ(vs: Seq<TupleView>, i: int)
    requires
        0 <= i < vs.len(),
    ensures
        flat_cat(vs.take(i + 1)) == flat_cat(vs.take(i)) + vs[i].flat(),
{
    assert(vs.take(i + 1).drop_last() =~= vs.take(i));
    assert(vs.take(i + 1).last() == vs[i]);
}

pub proof fn lemma_max_depth_take_succ(vs: Seq<TupleView>, i: int)
    requires
        0 <= i < vs.len(),
    ensures
        max_depth(vs.take(i + 1)) == if vs[i].depth_spec() >= max_depth(vs.take(i)) {
            vs[i].depth_spec()
        } else {
            max_depth(vs.take(i))
        },
{
    assert(vs.take(i + 1).drop_last() =~= vs.take(i));
    assert(vs.take(i + 1).last() == vs[i]);
}

pub proof fn lemma_depth_nonneg(tv: TupleView)
    ensures
        tv.depth_spec() >= 0,
    decreases tv,
{
    match tv {
        TupleView::Leaf(_) => {}
        TupleView::Node(vs) => {
            lemma_max_depth_nonneg(vs);
        }
    }
}

pub proof fn lemma_max_depth_nonneg(vs: Seq<TupleView>)
    ensures
        max_depth(vs) >= 0,
    decreases vs,
{
    if vs.len() > 0 {
        lemma_max_depth_nonneg(vs.drop_last());
        lemma_depth_nonneg(vs.last());
    }
}

pub proof fn lemma_max_depth_ge(vs: Seq<TupleView>, i: int)
    requires
        0 <= i < vs.len(),
    ensures
        max_depth(vs) >= vs[i].depth_spec(),
    decreases vs,
{
    if i < vs.len() - 1 {
        lemma_max_depth_ge(vs.drop_last(), i);
        assert(vs.drop_last()[i] == vs[i]);
    }
}

/// A tree's size is the product of its flattened run.
pub proof fn lemma_size_is_flat_prod(tv: TupleView)
    ensures
        tv.size_spec() == seq_prod(tv.flat()),
    decreases tv,
{
    match tv {
        TupleView::Leaf(_) => {}
        TupleView::Node(vs) => {
            lemma_sizes_prod_is_flat(vs);
        }
    }
}

pub proof fn lemma_sizes_prod_is_flat(vs: Seq<TupleView>)
    ensures
        sizes_prod(vs) == seq_prod(flat_cat(vs)),
    decreases vs,
{
    if vs.len() == 0 {
    } else {
        lemma_sizes_prod_is_flat(vs.drop_last());
        lemma_size_is_flat_prod(vs.last());
        crate::radix::lemma_seq_prod_concat(flat_cat(vs.drop_last()), vs.last().flat());
    }
}

/// Congruent trees flatten to runs of the same length.
pub proof fn lemma_congruent_flat_len(a: TupleView, b: TupleView)
    requires
        a.congruent(b),
    ensures
        a.flat().len() == b.flat().len(),
    decreases a,
{
    match (a, b) {
        (TupleView::Leaf(_), TupleView::Leaf(_)) => {}
        (TupleView::Node(xs), TupleView::Node(ys)) => {
            lemma_congruent_flat_len_seq(xs, ys);
        }
        _ => {}
    }
}

pub proof fn lemma_congruent_flat_len_seq(xs: Seq<TupleView>, ys: Seq<TupleView>)
    requires
        nodes_congruent(xs, ys),
    ensures
        flat_cat(xs).len() == flat_cat(ys).len(),
    decreases xs,
{
    if xs.len() > 0 {
        lemma_congruent_flat_len_seq(xs.drop_last(), ys.drop_last());
        lemma_congruent_flat_len(xs.last(), ys.last());
    }
}

/// The inner product of two leaf runs of equal length splits over
/// concatenation.
pub proof fn lemma_leaf_dot_concat(a1: Seq<usize>, b1: Seq<usize>, a2: Seq<usize>, b2: Seq<usize>)
    requires
        a1.len() == b1.len(),
        a2.len() == b2.len(),
    ensures
        leaf_dot(a1 + a2, b1 + b2) == leaf_dot(a1, b1) + leaf_dot(a2, b2),
    decreases a2.len(),
{
    if a2.len() == 0 {
        assert(a1 + a2 =~= a1);
        assert(b1 + b2 =~= b1);
    } else {
        lemma_leaf_dot_concat(a1, b1, a2.drop_last(), b2.drop_last());
        assert((a1 + a2).drop_last() =~= a1 + a2.drop_last());
        assert((b1 + b2).drop_last() =~= b1 + b2.drop_last());
        assert((a1 + a2).len() > 0);
        assert((a1 + a2).last() == a2.last());
        assert((b1 + b2).last() == b2.last());
    }
}

/// A hierarchical dot product equals the flat dot product of the two
/// flattened runs.
pub proof fn lemma_dot_flat(a: TupleView, b: TupleView)
    requires
        a.congruent(b),
    ensures
        a.dot_spec(b) == leaf_dot(a.flat(), b.flat()),
    decreases a,
{
    match (a, b) {
        (TupleView::Leaf(_), TupleView::Leaf(_)) => {}
        (TupleView::Node(xs), TupleView::Node(ys)) => {
            lemma_node_dot_flat(xs, ys);
        }
        _ => {}
    }
}

pub proof fn lemma_node_dot_flat(xs: Seq<TupleView>, ys: Seq<TupleView>)
    requires
        nodes_congruent(xs, ys),
    ensures
        node_dot(xs, ys) == leaf_dot(flat_cat(xs), flat_cat(ys)),
    decreases xs,
{
    if xs.len() > 0 {
        lemma_node_dot_flat(xs.drop_last(), ys.drop_last());
        lemma_dot_flat(xs.last(), ys.last());
        lemma_congruent_flat_len_seq(xs.drop_last(), ys.drop_last());
        lemma_congruent_flat_len(xs.last(), ys.last());
        lemma_leaf_dot_concat(
            flat_cat(xs.drop_last()),
            flat_cat(ys.drop_last()),
            xs.last().flat(),
            ys.last().flat(),
        );
    }
}

pub proof fn lemma_leaf_dot_nonneg(a: Seq<usize>, b: Seq<usize>)
    ensures
        leaf_dot(a, b) >= 0,
    decreases a.len(),
{
    if a.len() > 0 {
        lemma_leaf_dot_nonneg(a.drop_last(), b.drop_last());
        assert(a.last() * b.last() >= 0) by (nonlinear_arith)
            requires
                a.last() >= 0,
                b.last() >= 0,
        ;
    }
}

pub proof fn lemma_leaf_dot_take(a: Seq<usize>, b: Seq<usize>, i: int)
    requires
        a.len() == b.len(),
        0 <= i < a.len(),
    ensures
        leaf_dot(a.take(i + 1), b.take(i + 1))
            == leaf_dot(a.take(i), b.take(i)) + a[i] * b[i],
{
    assert(a.take(i + 1).drop_last() =~= a.take(i));
    assert(b.take(i + 1).drop_last() =~= b.take(i));
    assert(a.take(i + 1).last() == a[i]);
    assert(b.take(i + 1).last() == b[i]);
}

/// Dropping a suffix of a leaf dot product can only shrink it.
pub proof fn lemma_leaf_dot_prefix(a: Seq<usize>, b: Seq<usize>, i: int)
    requires
        a.len() == b.len(),
        0 <= i <= a.len(),
    ensures
        leaf_dot(a.take(i), b.take(i)) <= leaf_dot(a, b),
    decreases a.len() - i,
{
    if i == a.len() {
        assert(a.take(i) =~= a);
        assert(b.take(i) =~= b);
    } else {
        lemma_leaf_dot_take(a, b, i);
        lemma_leaf_dot_prefix(a, b, i + 1);
        assert(a[i] * b[i] >= 0) by (nonlinear_arith)
            requires
                a[i] >= 0,
                b[i] >= 0,
        ;
    }
}

impl Clone for Tuple {
    /// A clone has the same model.
    fn clone(&self) -> (r: Tuple)
        ensures
            r@ == self@,
        decreases *self,
    {
        match self {
            Tuple::Int(v) => {
                let mut nv: Vec<usize> = Vec::new();
                let mut i: usize = 0;
                while i < v.len()
                    invariant
                        0 <= i <= v.len(),
                        nv@ =~= v@.take(i as int),
                    decreases v.len() - i,
                {
                    nv.push(v[i]);
                    assert(nv@ =~= v@.take(i + 1));
                    i = i + 1;
                }
                assert(v@.take(v@.len() as int) =~= v@);
                Tuple::Int(nv)
            }
            Tuple::Tup(vs) => {
                let mut out: Vec<Tuple> = Vec::new();
                let mut i: usize = 0;
                proof {
                    lemma_node_views_len(vs@);
                }
                while i < vs.len()
                    invariant
                        *self == Tuple::Tup(*vs),
                        0 <= i <= vs.len(),
                        node_views(out@) =~= node_views(vs@).take(i as int),
                        node_views(vs@).len() == vs@.len(),
                        self@ == TupleView::Node(node_views(vs@)),
                    decreases vs.len() - i,
                {
                    proof {
                        assert(decreases_to!(*self => self->Tup_0));
                        assert(self->Tup_0 == *vs);
                        assert(decreases_to!(*vs => vs@));
                        assert(decreases_to!(vs@ => vs@[i as int]));
                        assert(decreases_to!(*self => vs@[i as int]));
                        lemma_node_views_index(vs@, i as int);
                    }
                    let c = vs[i].clone();
                    let ghost prev = out@;
                    out.push(c);
                    proof {
                        assert(out@.drop_last() =~= prev);
                        assert(node_views(out@) == node_views(prev).push(c@));
                        assert(node_views(vs@).take(i + 1)
                            =~= node_views(vs@).take(i as int).push(node_views(vs@)[i as int]));
                    }
                    i = i + 1;
                }
                proof {
                    assert(node_views(vs@).take(vs@.len() as int) =~= node_views(vs@));
                }
                Tuple::Tup(out)
            }
        }
    }
}

impl Tuple {
    /// Create a leaf tuple from a run of integers.
    pub fn ints(v: Vec<usize>) -> (r: Tuple)
        ensures
            r@ == TupleView::Leaf(v@),
    {
        Tuple::Int(v)
    }

    /// Create a leaf tuple holding a single integer.
    pub fn int1(x: usize) -> (r: Tuple)
        ensures
            r@ == TupleView::Leaf(seq![x]),
    {
        let mut v: Vec<usize> = Vec::new();
        v.push(x);
        assert(v@ =~= seq![x]);
        Tuple::Int(v)
    }

    /// Create a branch tuple from a run of tuples.
    pub fn tup(v: Vec<Tuple>) -> (r: Tuple)
        ensures
            r@ == TupleView::Node(node_views(v@)),
    {
        Tuple::Tup(v)
    }

    /// Number of entries at the top level.
    pub fn len(&self) -> (r: usize)
        ensures
            r == self@.arity(),
    {
        match self {
            Tuple::Int(v) => v.len(),
            Tuple::Tup(v) => {
                proof {
                    lemma_node_views_len(v@);
                }
                v.len()
            }
        }
    }

    /// Hierarchical access: the entry at `index`, as a tuple.
    pub fn get(&self, index: usize) -> (r: Tuple)
        requires
            index < self@.arity(),
        ensures
            r@ == self@.get_spec(index as int),
    {
        match self {
            Tuple::Int(v) => {
                let mut nv: Vec<usize> = Vec::new();
                nv.push(v[index]);
                assert(nv@ =~= seq![v@[index as int]]);
                Tuple::Int(nv)
            }
            Tuple::Tup(v) => {
                proof {
                    lemma_node_views_len(v@);
                    lemma_node_views_index(v@, index as int);
                }
                v[index].clone()
            }
        }
    }

    /// The leaf entries in order.
    pub fn flatten(&self) -> (r: Vec<usize>)
        ensures
            r@ == self@.flat(),
        decreases *self,
    {
        match self {
            Tuple::Int(v) => {
                let mut out: Vec<usize> = Vec::new();
                let mut i: usize = 0;
                while i < v.len()
                    invariant
                        0 <= i <= v.len(),
                        out@ =~= v@.take(i as int),
                    decreases v.len() - i,
                {
                    out.push(v[i]);
                    assert(out@ =~= v@.take(i + 1));
                    i = i + 1;
                }
                assert(v@.take(v@.len() as int) =~= v@);
                out
            }
            Tuple::Tup(vs) => {
                let mut out: Vec<usize> = Vec::new();
                let mut i: usize = 0;
                while i < vs.len()
                    invariant
                        *self == Tuple::Tup(*vs),
                        0 <= i <= vs.len(),
                        out@ =~= flat_cat(node_views(vs@).take(i as int)),
                    decreases vs.len() - i,
                {
                    proof {
                        assert(decreases_to!(*self => self->Tup_0));
                        assert(self->Tup_0 == *vs);
                        assert(decreases_to!(*vs => vs@));
                        assert(decreases_to!(vs@ => vs@[i as int]));
                        assert(decreases_to!(*self => vs@[i as int]));
                        lemma_node_views_len(vs@);
                        lemma_node_views_index(vs@, i as int);
                    }
                    let mut part = vs[i].flatten();
                    out.append(&mut part);
                    proof {
                        lemma_flat_cat_take_succ(node_views(vs@), i as int);
                    }
                    i = i + 1;
                }
                proof {
                    lemma_node_views_len(vs@);
                    assert(node_views(vs@).take(vs@.len() as int) =~= node_views(vs@));
                }
                out
            }
        }
    }

    /// Number of leaf entries.
    pub fn flat_len(&self) -> (r: usize)
        ensures
            r == self@.flat().len(),
    {
        self.flatten().len()
    }

    /// The leaf entry at flattened position `i`.
    pub fn flat_at(&self, i: usize) -> (r: usize)
        requires
            i < self@.flat().len(),
        ensures
            r == self@.flat()[i as int],
    {
        let f = self.flatten();
        f[i]
    }

    /// The leaf entries in order (by-value form of the flattened walk).
    pub fn iter_flat(&self) -> (r: Vec<usize>)
        ensures
            r@ == self@.flat(),
    {
        self.flatten()
    }

    /// Nesting depth of the tuple: zero for a leaf.
    pub fn depth(&self) -> (r: usize)
        requires
            self@.depth_spec() <= usize::MAX,
        ensures
            r == self@.depth_spec(),
        decreases *self,
    {
        match self {
            Tuple::Int(_) => 0,
            Tuple::Tup(vs) => {
                let mut m: usize = 0;
                let mut i: usize = 0;
                proof {
                    lemma_node_views_len(vs@);
                }
                while i < vs.len()
                    invariant
                        *self == Tuple::Tup(*vs),
                        0 <= i <= vs.len(),
                        node_views(vs@).len() == vs@.len(),
                        m == max_depth(node_views(vs@).take(i as int)),
                        self@ == TupleView::Node(node_views(vs@)),
                        self@.depth_spec() <= usize::MAX,
                    decreases vs.len() - i,
                {
                    proof {
                        assert(decreases_to!(*self => self->Tup_0));
                        assert(self->Tup_0 == *vs);
                        assert(decreases_to!(*vs => vs@));
                        assert(decreases_to!(vs@ => vs@[i as int]));
                        assert(decreases_to!(*self => vs@[i as int]));
                        lemma_node_views_index(vs@, i as int);
                        lemma_max_depth_ge(node_views(vs@), i as int);
                        lemma_depth_nonneg(node_views(vs@)[i as int]);
                        lemma_max_depth_nonneg(node_views(vs@));
                    }
                    let d = vs[i].depth();
                    if d >= m {
                        m = d;
                    }
                    proof {
                        lemma_max_depth_take_succ(node_views(vs@), i as int);
                    }
                    i = i + 1;
                }
                proof {
                    assert(node_views(vs@).take(vs@.len() as int) =~= node_views(vs@));
                    lemma_max_depth_nonneg(node_views(vs@));
                }
                1 + m
            }
        }
    }

    /// Product of all leaf entries.
    pub fn size(&self) -> (r: usize)
        requires
            size_ok(self@),
        ensures
            r == self@.size_spec(),
        decreases *self,
    {
        match self {
            Tuple::Int(v) => {
                let mut acc: usize = 1;
                let mut i: usize = 0;
                while i < v.len()
                    invariant
                        0 <= i <= v.len(),
                        acc == seq_prod(v@.take(i as int)),
                        size_ok(TupleView::Leaf(v@)),
                        self@ == TupleView::Leaf(v@),
                    decreases v.len() - i,
                {
                    proof {
                        crate::radix::lemma_seq_prod_take_succ(v@, i as int);
                        lemma_leaf_prods_ok_take(v@, i + 1);
                        crate::radix::lemma_seq_prod_nonneg(v@.take(i as int));
                    }
                    acc = acc * v[i];
                    i = i + 1;
                }
                assert(v@.take(v@.len() as int) =~= v@);
                acc
            }
            Tuple::Tup(vs) => {
                let mut acc: usize = 1;
                let mut i: usize = 0;
                proof {
                    lemma_node_views_len(vs@);
                }
                while i < vs.len()
                    invariant
                        *self == Tuple::Tup(*vs),
                        0 <= i <= vs.len(),
                        node_views(vs@).len() == vs@.len(),
                        acc == sizes_prod(node_views(vs@).take(i as int)),
                        size_ok(TupleView::Node(node_views(vs@))),
                        self@ == TupleView::Node(node_views(vs@)),
                    decreases vs.len() - i,
                {
                    proof {
                        assert(decreases_to!(*self => self->Tup_0));
                        assert(self->Tup_0 == *vs);
                        assert(decreases_to!(*vs => vs@));
                        assert(decreases_to!(vs@ => vs@[i as int]));
                        assert(decreases_to!(*self => vs@[i as int]));
                        lemma_node_views_index(vs@, i as int);
                        lemma_sizes_prod_take_succ(node_views(vs@), i as int);
                        lemma_nodes_size_ok_index(node_views(vs@), i as int);
                        lemma_nodes_size_ok_take(node_views(vs@), i + 1);
                    }
                    let s = vs[i].size();
                    acc = acc * s;
                    i = i + 1;
                }
                proof {
                    assert(node_views(vs@).take(vs@.len() as int) =~= node_views(vs@));
                }
                acc
            }
        }
    }
}

pub proof fn lemma_node_dot_nonneg(xs: Seq<TupleView>, ys: Seq<TupleView>)
    ensures
        node_dot(xs, ys) >= 0,
    decreases xs,
{
    if xs.len() > 0 {
        lemma_node_dot_nonneg(xs.drop_last(), ys.drop_last());
        lemma_dot_nonneg(xs.last(), ys.last());
    }
}

pub proof fn lemma_dot_nonneg(a: TupleView, b: TupleView)
    ensures
        a.dot_spec(b) >= 0,
    decreases a,
{
    match (a, b) {
        (TupleView::Leaf(x), TupleView::Leaf(y)) => {
            lemma_leaf_dot_nonneg(x, y);
        }
        (TupleView::Node(xs), TupleView::Node(ys)) => {
            lemma_node_dot_nonneg(xs, ys);
        }
        _ => {}
    }
}

pub proof fn lemma_node_dot_take(xs: Seq<TupleView>, ys: Seq<TupleView>, i: int)
    requires
        xs.len() == ys.len(),
        0 <= i < xs.len(),
    ensures
        node_dot(xs.take(i + 1), ys.take(i + 1))
            == node_dot(xs.take(i), ys.take(i)) + xs[i].dot_spec(ys[i]),
{
    assert(xs.take(i + 1).drop_last() =~= xs.take(i));
    assert(ys.take(i + 1).drop_last() =~= ys.take(i));
    assert(xs.take(i + 1).last() == xs[i]);
    assert(ys.take(i + 1).last() == ys[i]);
}

/// Dropping a suffix of a hierarchical dot product can only shrink it.
pub proof fn lemma_node_dot_prefix(xs: Seq<TupleView>, ys: Seq<TupleView>, i: int)
    requires
        xs.len() == ys.len(),
        0 <= i <= xs.len(),
    ensures
        node_dot(xs.take(i), ys.take(i)) <= node_dot(xs, ys),
    decreases xs.len() - i,
{
    if i == xs.len() {
        assert(xs.take(i) =~= xs);
        assert(ys.take(i) =~= ys);
    } else {
        lemma_node_dot_take(xs, ys, i);
        lemma_node_dot_prefix(xs, ys, i + 1);
        lemma_dot_nonneg(xs[i], ys[i]);
    }
}

pub proof fn lemma_node_views_concat(s1: Seq<Tuple>, s2: Seq<Tuple>)
    ensures
        node_views(s1 + s2) =~= node_views(s1) + node_views(s2),
    decreases s2,
{
    if s2.len() == 0 {
        assert(s1 + s2 =~= s1);
    } else {
        lemma_node_views_concat(s1, s2.drop_last());
        assert((s1 + s2).drop_last() =~= s1 + s2.drop_last());
        assert((s1 + s2).len() > 0);
        assert((s1 + s2).last() == s2.last());
        lemma_node_views_len(s1 + s2.drop_last());
        lemma_node_views_len(s1);
        lemma_node_views_len(s2.drop_last());
    }
}

/// Elementwise quotients of two runs.
pub open spec fn div_seq(a: Seq<usize>, b: Seq<usize>) -> Seq<usize> {
    Seq::new(a.len(), |d: int| (a[d] / b[d]) as usize)
}

/// Elementwise remainders of two runs.
pub open spec fn mod_seq(a: Seq<usize>, b: Seq<usize>) -> Seq<usize> {
    Seq::new(a.len(), |d: int| (a[d] % b[d]) as usize)
}

impl Tuple {
    /// Hierarchical inner product with a congruent tuple: at leaf level
    /// a vector dot product, at branch level the sum over matched
    /// children.
    pub fn dot(&self, other: &Tuple) -> (r: usize)
        requires
            self@.congruent(other@),
            self@.dot_spec(other@) <= usize::MAX,
        ensures
            r == self@.dot_spec(other@),
        decreases *self,
    {
        match (self, other) {
            (Tuple::Int(a), Tuple::Int(b)) => {
                let mut acc: usize = 0;
                let mut i: usize = 0;
                while i < a.len()
                    invariant
                        *self == Tuple::Int(*a),
                        *other == Tuple::Int(*b),
                        a@.len() == b@.len(),
                        0 <= i <= a.len(),
                        acc == leaf_dot(a@.take(i as int), b@.take(i as int)),
                        leaf_dot(a@, b@) <= usize::MAX,
                    decreases a.len() - i,
                {
                    proof {
                        lemma_leaf_dot_take(a@, b@, i as int);
                        lemma_leaf_dot_prefix(a@, b@, i + 1);
                        lemma_leaf_dot_nonneg(a@.take(i as int), b@.take(i as int));
                    }
                    acc = acc + a[i] * b[i];
                    i = i + 1;
                }
                proof {
                    assert(a@.take(a@.len() as int) =~= a@);
                    assert(b@.take(b@.len() as int) =~= b@);
                }
                acc
            }
            (Tuple::Tup(xs), Tuple::Tup(ys)) => {
                let mut acc: usize = 0;
                let mut i: usize = 0;
                proof {
                    lemma_node_views_len(xs@);
                    lemma_node_views_len(ys@);
                }
                while i < xs.len()
                    invariant
                        *self == Tuple::Tup(*xs),
                        *other == Tuple::Tup(*ys),
                        nodes_congruent(node_views(xs@), node_views(ys@)),
                        node_views(xs@).len() == xs@.len(),
                        node_views(ys@).len() == ys@.len(),
                        xs@.len() == ys@.len(),
                        0 <= i <= xs.len(),
                        acc == node_dot(
                            node_views(xs@).take(i as int),
                            node_views(ys@).take(i as int),
                        ),
                        node_dot(node_views(xs@), node_views(ys@)) <= usize::MAX,
                    decreases xs.len() - i,
                {
                    proof {
                        assert(decreases_to!(*self => self->Tup_0));
                        assert(self->Tup_0 == *xs);
                        assert(decreases_to!(*xs => xs@));
                        assert(decreases_to!(xs@ => xs@[i as int]));
                        assert(decreases_to!(*self => xs@[i as int]));
                        lemma_node_views_index(xs@, i as int);
                        lemma_node_views_index(ys@, i as int);
                        lemma_nodes_congruent_index(node_views(xs@), node_views(ys@), i as int);
                        lemma_node_dot_take(node_views(xs@), node_views(ys@), i as int);
                        lemma_node_dot_prefix(node_views(xs@), node_views(ys@), i + 1);
                        lemma_node_dot_nonneg(
                            node_views(xs@).take(i as int),
                            node_views(ys@).take(i as int),
                        );
                        lemma_dot_nonneg(node_views(xs@)[i as int], node_views(ys@)[i as int]);
                    }
                    let d = xs[i].dot(&ys[i]);
                    acc = acc + d;
                    i = i + 1;
                }
                proof {
                    assert(node_views(xs@).take(xs@.len() as int) =~= node_views(xs@));
                    assert(node_views(ys@).take(ys@.len() as int) =~= node_views(ys@));
                }
                acc
            }
            _ => {
                proof {
                    assert(false);
                }
                0
            }
        }
    }

    /// Concatenate two branch tuples at the top level.
    pub fn concat(lhs: &Tuple, rhs: &Tuple) -> (r: Tuple)
        requires
            lhs@ is Node,
            rhs@ is Node,
        ensures
            r@ == TupleView::Node(lhs@->Node_0 + rhs@->Node_0),
    {
        match (lhs, rhs) {
            (Tuple::Tup(a), Tuple::Tup(b)) => {
                let mut v = clone_children(a);
                let mut w = clone_children(b);
                let ghost v_snap = v@;
                let ghost w_snap = w@;
                v.append(&mut w);
                proof {
                    lemma_node_views_concat(v_snap, w_snap);
                }
                Tuple::Tup(v)
            }
            _ => {
                proof {
                    assert(false);
                }
                Tuple::Tup(Vec::new())
            }
        }
    }

    /// Product of all leaf entries, folded over the flattened run.
    pub fn product(&self) -> (r: usize)
        requires
            leaf_prods_ok(self@.flat()),
        ensures
            r == seq_prod(self@.flat()),
    {
        let f = self.flatten();
        let mut acc: usize = 1;
        let mut i: usize = 0;
        while i < f.len()
            invariant
                0 <= i <= f.len(),
                f@ == self@.flat(),
                leaf_prods_ok(f@),
                acc == seq_prod(f@.take(i as int)),
            decreases f.len() - i,
        {
            proof {
                crate::radix::lemma_seq_prod_take_succ(f@, i as int);
                lemma_leaf_prods_ok_take(f@, i + 1);
                crate::radix::lemma_seq_prod_nonneg(f@.take(i as int));
            }
            acc = acc * f[i];
            i = i + 1;
        }
        proof {
            assert(f@.take(f@.len() as int) =~= f@);
        }
        acc
    }

    /// Elementwise quotient over the flattened runs; every divisor must
    /// divide its dividend exactly.
    pub fn div_exact(&self, rhs: &Tuple) -> (r: Tuple)
        requires
            self@.flat().len() == rhs@.flat().len(),
            forall|d: int| 0 <= d < rhs@.flat().len() ==> 1 <= #[trigger] rhs@.flat()[d],
            forall|d: int|
                0 <= d < self@.flat().len()
                    ==> #[trigger] self@.flat()[d] % rhs@.flat()[d] == 0,
        ensures
            r@ == TupleView::Leaf(div_seq(self@.flat(), rhs@.flat())),
    {
        let a = self.flatten();
        let b = rhs.flatten();
        let mut out: Vec<usize> = Vec::new();
        let mut i: usize = 0;
        while i < a.len()
            invariant
                0 <= i <= a.len(),
                a@ == self@.flat(),
                b@ == rhs@.flat(),
                a@.len() == b@.len(),
                forall|d: int| 0 <= d < b@.len() ==> 1 <= #[trigger] b@[d],
                out@ =~= div_seq(a@, b@).take(i as int),
            decreases a.len() - i,
        {
            out.push(a[i] / b[i]);
            assert(out@ =~= div_seq(a@, b@).take(i + 1));
            i = i + 1;
        }
        proof {
            assert(div_seq(a@, b@).take(a@.len() as int) =~= div_seq(a@, b@));
        }
        Tuple::Int(out)
    }

    /// Elementwise remainder over the flattened runs.
    pub fn mod_exact(&self, rhs: &Tuple) -> (r: Tuple)
        requires
            self@.flat().len() == rhs@.flat().len(),
            forall|d: int| 0 <= d < rhs@.flat().len() ==> 1 <= #[trigger] rhs@.flat()[d],
        ensures
            r@ == TupleView::Leaf(mod_seq(self@.flat(), rhs@.flat())),
    {
        let a = self.flatten();
        let b = rhs.flatten();
        let mut out: Vec<usize> = Vec::new();
        let mut i: usize = 0;
        while i < a.len()
            invariant
                0 <= i <= a.len(),
                a@ == self@.flat(),
                b@ == rhs@.flat(),
                a@.len() == b@.len(),
                forall|d: int| 0 <= d < b@.len() ==> 1 <= #[trigger] b@[d],
                out@ =~= mod_seq(a@, b@).take(i as int),
            decreases a.len() - i,
        {
            out.push(a[i] % b[i]);
            assert(out@ =~= mod_seq(a@, b@).take(i + 1));
            i = i + 1;
        }
        proof {
            assert(mod_seq(a@, b@).take(a@.len() as int) =~= mod_seq(a@, b@));
        }
        Tuple::Int(out)
    }
}

/// Clone every tuple of a run, keeping the models.
fn clone_children(vs: &Vec<Tuple>) -> (r: Vec<Tuple>)
    ensures
        node_views(r@) == node_views(vs@),
        r@.len() == vs@.len(),
{
    let mut out: Vec<Tuple> = Vec::new();
    let mut i: usize = 0;
    proof {
        lemma_node_views_len(vs@);
    }
    while i < vs.len()
        invariant
            0 <= i <= vs.len(),
            out@.len() == i,
            node_views(out@) =~= node_views(vs@).take(i as int),
            node_views(vs@).len() == vs@.len(),
        decreases vs.len() - i,
    {
        proof {
            lemma_node_views_index(vs@, i as int);
        }
        let c = vs[i].clone();
        let ghost prev = out@;
        out.push(c);
        proof {
            assert(out@.drop_last() =~= prev);
            assert(node_views(out@) == node_views(prev).push(c@));
            assert(node_views(vs@).take(i + 1)
                =~= node_views(vs@).take(i as int).push(node_views(vs@)[i as int]));
        }
        i = i + 1;
    }
    proof {
        assert(node_views(vs@).take(vs@.len() as int) =~= node_views(vs@));
    }
    out
}

/// Every leaf entry of every tree of the run is at least one.
pub open spec fn nodes_pos(vs: Seq<TupleView>) -> bool
    decreases vs,
{
    if vs.len() == 0 {
        true
    } else {
        nodes_pos(vs.drop_last()) && vs.last().leaves_pos()
    }
}

pub proof fn lemma_nodes_pos_index(vs: Seq<TupleView>, i: int)
    requires
        nodes_pos(vs),
        0 <= i < vs.len(),
    ensures
        vs[i].leaves_pos(),
    decreases vs,
{
    if i < vs.len() - 1 {
        lemma_nodes_pos_index(vs.drop_last(), i);
        assert(vs.drop_last()[i] == vs[i]);
    }
}

/// A tree's leaves are all positive exactly when its flattened run is.
pub proof fn lemma_leaves_pos_flat(tv: TupleView)
    ensures
        tv.leaves_pos() == crate::radix::all_pos(tv.flat()),
    decreases tv,
{
    match tv {
        TupleView::Leaf(_) => {}
        TupleView::Node(vs) => {
            lemma_nodes_pos_flat(vs);
        }
    }
}

pub proof fn lemma_nodes_pos_flat(vs: Seq<TupleView>)
    ensures
        nodes_pos(vs) == crate::radix::all_pos(flat_cat(vs)),
    decreases vs,
{
    if vs.len() == 0 {
    } else {
        lemma_nodes_pos_flat(vs.drop_last());
        lemma_leaves_pos_flat(vs.last());
        let a = flat_cat(vs.drop_last());
        let b = vs.last().flat();
        assert(flat_cat(vs) == a + b);
        if crate::radix::all_pos(a) && crate::radix::all_pos(b) {
            assert forall|d: int| 0 <= d < (a + b).len() implies 1 <= (a + b)[d] by {
                if d < a.len() {
                    assert((a + b)[d] == a[d]);
                } else {
                    assert((a + b)[d] == b[d - a.len()]);
                }
            }
        }
        if crate::radix::all_pos(a + b) {
            assert forall|d: int| 0 <= d < a.len() implies 1 <= a[d] by {
                assert((a + b)[d] == a[d]);
            }
            assert forall|d: int| 0 <= d < b.len() implies 1 <= b[d] by {
                assert((a + b)[d + a.len()] == b[d]);
            }
        }
    }
}

/// The flattened run of a run of trees splits at any child boundary.
pub proof fn lemma_flat_cat_split(vs: Seq<TupleView>, i: int)
    requires
        0 <= i <= vs.len(),
    ensures
        flat_cat(vs) =~= flat_cat(vs.take(i)) + flat_cat(vs.skip(i)),
    decreases vs,
{
    if i == vs.len() {
        assert(vs.take(i) =~= vs);
        assert(vs.skip(i).len() == 0);
    } else {
        lemma_flat_cat_split(vs.drop_last(), i);
        assert(vs.drop_last().take(i) =~= vs.take(i));
        assert(vs.skip(i).len() > 0);
        assert(vs.skip(i).drop_last() =~= vs.drop_last().skip(i));
        assert(vs.skip(i).last() == vs.last());
        assert(flat_cat(vs.skip(i)) == flat_cat(vs.drop_last().skip(i)) + vs.last().flat());
        assert(flat_cat(vs) == flat_cat(vs.drop_last()) + vs.last().flat());
    }
}

/// The product of the run's sizes splits at any child boundary.
pub proof fn lemma_sizes_prod_split(vs: Seq<TupleView>, i: int)
    requires
        0 <= i <= vs.len(),
    ensures
        sizes_prod(vs) == sizes_prod(vs.take(i)) * sizes_prod(vs.skip(i)),
    decreases vs,
{
    if i == vs.len() {
        assert(vs.take(i) =~= vs);
        assert(vs.skip(i).len() == 0);
        assert(sizes_prod(vs) * 1 == sizes_prod(vs)) by (nonlinear_arith);
    } else {
        lemma_sizes_prod_split(vs.drop_last(), i);
        assert(vs.drop_last().take(i) =~= vs.take(i));
        assert(vs.skip(i).len() > 0);
        assert(vs.skip(i).drop_last() =~= vs.drop_last().skip(i));
        assert(vs.skip(i).last() == vs.last());
        let a = sizes_prod(vs.take(i));
        let b = sizes_prod(vs.drop_last().skip(i));
        let c = vs.last().size_spec();
        assert(sizes_prod(vs.skip(i)) == b * c);
        assert(sizes_prod(vs) == (a * b) * c);
        assert((a * b) * c == a * (b * c)) by (nonlinear_arith);
    }
}

/// Head step for the product of a run's sizes.
pub proof fn lemma_sizes_prod_head(vs: Seq<TupleView>)
    requires
        vs.len() > 0,
    ensures
        sizes_prod(vs) == vs[0].size_spec() * sizes_prod(vs.drop_first()),
{
    lemma_sizes_prod_split(vs, 1);
    assert(vs.take(1).len() == 1);
    assert(vs.take(1).drop_last().len() == 0);
    assert(vs.take(1).last() == vs[0]);
    assert(sizes_prod(vs.take(1).drop_last()) == 1);
    assert(sizes_prod(vs.take(1)) == 1 * vs[0].size_spec());
    assert(1 * vs[0].size_spec() == vs[0].size_spec()) by (nonlinear_arith);
    assert(vs.skip(1) =~= vs.drop_first());
}

/// Head step for the flattened run of a run of trees.
pub proof fn lemma_flat_cat_head(vs: Seq<TupleView>)
    requires
        vs.len() > 0,
    ensures
        flat_cat(vs) =~= vs[0].flat() + flat_cat(vs.drop_first()),
{
    lemma_flat_cat_split(vs, 1);
    assert(vs.take(1).len() == 1);
    assert(vs.take(1).drop_last().len() == 0);
    assert(vs.take(1).last() == vs[0]);
    assert(flat_cat(vs.take(1).drop_last()) =~= Seq::<usize>::empty());
    assert(flat_cat(vs.take(1)) =~= Seq::empty() + vs[0].flat());
    assert(Seq::empty() + vs[0].flat() =~= vs[0].flat());
    assert(vs.skip(1) =~= vs.drop_first());
}

/// A tree with positive leaves has a positive size.
pub proof fn lemma_tree_pos_size(tv: TupleView)
    requires
        tv.leaves_pos(),
    ensures
        tv.size_spec() >= 1,
{
    lemma_size_is_flat_prod(tv);
    lemma_leaves_pos_flat(tv);
    crate::radix::lemma_seq_prod_pos(tv.flat());
}

/// Each tree's size divides into the product of the run's sizes.
pub proof fn lemma_child_size_le(vs: Seq<TupleView>, i: int)
    requires
        nodes_pos(vs),
        0 <= i < vs.len(),
    ensures
        1 <= vs[i].size_spec(),
        vs[i].size_spec() <= sizes_prod(vs),
        1 <= sizes_prod(vs),
    decreases vs,
{
    lemma_nodes_pos_index(vs, i);
    lemma_tree_pos_size(vs[i]);
    lemma_nodes_pos_index(vs, vs.len() - 1);
    lemma_tree_pos_size(vs.last());
    if i == vs.len() - 1 {
        lemma_nodes_pos_sizes_pos(vs.drop_last());
        assert(vs[i].size_spec() <= sizes_prod(vs.drop_last()) * vs.last().size_spec())
            by (nonlinear_arith)
            requires
                1 <= sizes_prod(vs.drop_last()),
                1 <= vs[i].size_spec(),
                vs[i].size_spec() == vs.last().size_spec(),
        ;
        assert(1 <= sizes_prod(vs)) by (nonlinear_arith)
            requires
                1 <= sizes_prod(vs.drop_last()),
                1 <= vs.last().size_spec(),
                sizes_prod(vs) == sizes_prod(vs.drop_last()) * vs.last().size_spec(),
        ;
    } else {
        lemma_child_size_le(vs.drop_last(), i);
        assert(vs.drop_last()[i] == vs[i]);
        assert(vs[i].size_spec() <= sizes_prod(vs.drop_last()) * vs.last().size_spec())
            by (nonlinear_arith)
            requires
                vs[i].size_spec() <= sizes_prod(vs.drop_last()),
                1 <= vs.last().size_spec(),
                0 <= vs[i].size_spec(),
        ;
        assert(1 <= sizes_prod(vs)) by (nonlinear_arith)
            requires
                1 <= sizes_prod(vs.drop_last()),
                1 <= vs.last().size_spec(),
                sizes_prod(vs) == sizes_prod(vs.drop_last()) * vs.last().size_spec(),
        ;
    }
}

/// A run of trees with positive leaves has a positive size product.
pub proof fn lemma_nodes_pos_sizes_pos(vs: Seq<TupleView>)
    requires
        nodes_pos(vs),
    ensures
        sizes_prod(vs) >= 1,
    decreases vs,
{
    if vs.len() > 0 {
        lemma_nodes_pos_sizes_pos(vs.drop_last());
        lemma_nodes_pos_index(vs, vs.len() - 1);
        lemma_tree_pos_size(vs.last());
        assert(sizes_prod(vs.drop_last()) * vs.last().size_spec() >= 1) by (nonlinear_arith)
            requires
                sizes_prod(vs.drop_last()) >= 1,
                vs.last().size_spec() >= 1,
        ;
    }
}

/// Positive leaves and a bounded size let the whole product be folded
/// within `usize`.
pub proof fn lemma_size_ok_from_bounds(tv: TupleView)
    requires
        tv.leaves_pos(),
        tv.size_spec() <= usize::MAX,
    ensures
        size_ok(tv),
    decreases tv,
{
    match tv {
        TupleView::Leaf(v) => {
            lemma_leaf_prods_ok_from(v);
        }
        TupleView::Node(vs) => {
            lemma_nodes_size_ok_from(vs);
        }
    }
}

pub proof fn lemma_nodes_size_ok_from(vs: Seq<TupleView>)
    requires
        nodes_pos(vs),
        sizes_prod(vs) <= usize::MAX,
    ensures
        nodes_size_ok(vs),
    decreases vs,
{
    if vs.len() > 0 {
        lemma_nodes_pos_sizes_pos(vs.drop_last());
        lemma_nodes_pos_index(vs, vs.len() - 1);
        lemma_tree_pos_size(vs.last());
        assert(vs.last().size_spec() <= sizes_prod(vs) && sizes_prod(vs.drop_last()) <= sizes_prod(vs))
            by (nonlinear_arith)
            requires
                sizes_prod(vs) == sizes_prod(vs.drop_last()) * vs.last().size_spec(),
                sizes_prod(vs.drop_last()) >= 1,
                vs.last().size_spec() >= 1,
        ;
        lemma_nodes_size_ok_from(vs.drop_last());
        lemma_size_ok_from_bounds(vs.last());
    }
}

/// Positive entries and a bounded product keep every prefix product
/// within `usize`.
pub proof fn lemma_leaf_prods_ok_from(v: Seq<usize>)
    requires
        crate::radix::all_pos(v),
        seq_prod(v) <= usize::MAX,
    ensures
        leaf_prods_ok(v),
    decreases v.len(),
{
    if v.len() > 0 {
        assert(crate::radix::all_pos(v.drop_last()));
        crate::radix::lemma_seq_prod_drop_last(v);
        crate::radix::lemma_seq_prod_pos(v.drop_last());
        assert(seq_prod(v.drop_last()) <= seq_prod(v)) by (nonlinear_arith)
            requires
                seq_prod(v) == seq_prod(v.drop_last()) * v.last(),
                seq_prod(v.drop_last()) >= 1,
                v.last() >= 1,
        ;
        lemma_leaf_prods_ok_from(v.drop_last());
    }
}

/// Congruence of trees is transitive.
pub proof fn lemma_congruent_trans(a: TupleView, b: TupleView, c: TupleView)
    requires
        a.congruent(b),
        b.congruent(c),
    ensures
        a.congruent(c),
    decreases a,
{
    match (a, b, c) {
        (TupleView::Node(xs), TupleView::Node(ys), TupleView::Node(zs)) => {
            lemma_nodes_congruent_trans(xs, ys, zs);
        }
        _ => {}
    }
}

pub proof fn lemma_nodes_congruent_trans(xs: Seq<TupleView>, ys: Seq<TupleView>, zs: Seq<TupleView>)
    requires
        nodes_congruent(xs, ys),
        nodes_congruent(ys, zs),
    ensures
        nodes_congruent(xs, zs),
    decreases xs,
{
    if xs.len() > 0 {
        lemma_nodes_congruent_trans(xs.drop_last(), ys.drop_last(), zs.drop_last());
        lemma_congruent_trans(xs.last(), ys.last(), zs.last());
    }
}

/// Positivity of leaves distributes over any split of the run.
pub proof fn lemma_nodes_pos_parts(vs: Seq<TupleView>, i: int)
    requires
        nodes_pos(vs),
        0 <= i <= vs.len(),
    ensures
        nodes_pos(vs.take(i)),
        nodes_pos(vs.skip(i)),
    decreases vs,
{
    if i == vs.len() {
        assert(vs.take(i) =~= vs);
        assert(vs.skip(i).len() == 0);
    } else {
        lemma_nodes_pos_parts(vs.drop_last(), i);
        assert(vs.drop_last().take(i) =~= vs.take(i));
        assert(vs.skip(i).len() > 0);
        assert(vs.skip(i).drop_last() =~= vs.drop_last().skip(i));
        assert(vs.skip(i).last() == vs.last());
    }
}

/// Congruence of trees is symmetric.
pub proof fn lemma_congruent_sym(a: TupleView, b: TupleView)
    requires
        a.congruent(b),
    ensures
        b.congruent(a),
    decreases a,
{
    match (a, b) {
        (TupleView::Node(xs), TupleView::Node(ys)) => {
            lemma_nodes_congruent_sym(xs, ys);
        }
        _ => {}
    }
}

pub proof fn lemma_nodes_congruent_sym(xs: Seq<TupleView>, ys: Seq<TupleView>)
    requires
        nodes_congruent(xs, ys),
    ensures
        nodes_congruent(ys, xs),
    decreases xs,
{
    if xs.len() > 0 {
        lemma_nodes_congruent_sym(xs.drop_last(), ys.drop_last());
        lemma_congruent_sym(xs.last(), ys.last());
    }
}

/// Head step for the inner product of two equally long leaf runs.
pub proof fn lemma_leaf_dot_head(a: Seq<usize>, b: Seq<usize>)
    requires
        a.len() == b.len(),
        a.len() > 0,
    ensures
        leaf_dot(a, b) == a[0] * b[0] + leaf_dot(a.drop_first(), b.drop_first()),
    decreases a.len(),
{
    if a.len() == 1 {
        assert(a.drop_last().len() == 0);
        assert(a.drop_first().len() == 0);
        assert(leaf_dot(a.drop_last(), b.drop_last()) == 0);
        assert(leaf_dot(a.drop_first(), b.drop_first()) == 0);
        assert(a.last() == a[0]);
        assert(b.last() == b[0]);
    } else {
        lemma_leaf_dot_head(a.drop_last(), b.drop_last());
        assert(a.drop_last()[0] == a[0]);
        assert(b.drop_last()[0] == b[0]);
        assert(a.drop_last().drop_first() =~= a.drop_first().drop_last());
        assert(b.drop_last().drop_first() =~= b.drop_first().drop_last());
        assert(a.drop_first().last() == a.last());
        assert(b.drop_first().last() == b.last());
    }
}

/// A leaf dot product equals the weighted sum of any digit run with
/// the same entries.
pub proof fn lemma_leaf_dot_recompose(a: Seq<usize>, ds: Seq<int>, st: Seq<usize>)
    requires
        a.len() == st.len(),
        ds.len() == st.len(),
        forall|d: int| 0 <= d < a.len() ==> (#[trigger] a[d]) as int == ds[d],
    ensures
        leaf_dot(a, st) == crate::radix::recompose(ds, st),
    decreases st.len(),
{
    if st.len() > 0 {
        lemma_leaf_dot_head(a, st);
        assert forall|d: int| 0 <= d < a.drop_first().len() implies
            (#[trigger] a.drop_first()[d]) as int == ds.drop_first()[d] by {
            assert(a.drop_first()[d] == a[d + 1]);
            assert(ds.drop_first()[d] == ds[d + 1]);
        }
        lemma_leaf_dot_recompose(a.drop_first(), ds.drop_first(), st.drop_first());
    }
}

/// Pairwise congruence distributes over any split of the runs.
pub proof fn lemma_nodes_congruent_parts(a: Seq<TupleView>, b: Seq<TupleView>, i: int)
    requires
        nodes_congruent(a, b),
        0 <= i <= a.len(),
    ensures
        nodes_congruent(a.take(i), b.take(i)),
        nodes_congruent(a.skip(i), b.skip(i)),
    decreases a,
{
    if i == a.len() {
        assert(a.take(i) =~= a);
        assert(b.take(i) =~= b);
        assert(a.skip(i).len() == 0);
        assert(b.skip(i).len() == 0);
    } else {
        lemma_nodes_congruent_parts(a.drop_last(), b.drop_last(), i);
        assert(a.drop_last().take(i) =~= a.take(i));
        assert(b.drop_last().take(i) =~= b.take(i));
        assert(a.skip(i).len() > 0);
        assert(a.skip(i).drop_last() =~= a.drop_last().skip(i));
        assert(b.skip(i).drop_last() =~= b.drop_last().skip(i));
        assert(a.skip(i).last() == a.last());
        assert(b.skip(i).last() == b.last());
    }
}

/// A run whose every tree has positive leaves is positive as a run.
pub proof fn lemma_nodes_pos_intro(vs: Seq<TupleView>)
    requires
        forall|i: int| 0 <= i < vs.len() ==> (#[trigger] vs[i]).leaves_pos(),
    ensures
        nodes_pos(vs),
    decreases vs,
{
    if vs.len() > 0 {
        assert forall|i: int| 0 <= i < vs.len() - 1 implies
            (#[trigger] vs.drop_last()[i]).leaves_pos() by {
            assert(vs.drop_last()[i] == vs[i]);
        }
        lemma_nodes_pos_intro(vs.drop_last());
        assert(vs[vs.len() - 1].leaves_pos());
    }
}

} // verus!
