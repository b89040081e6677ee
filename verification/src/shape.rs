use vstd::prelude::*;
use crate::tuple::{Tuple, TupleView, size_ok};
use crate::display::tuple_str;

verus! {

/// A tuple interpreted as per-dimension element extents.
#[derive(Debug, PartialEq, Eq)]
pub struct Shape {
    pub dims: Tuple,
}

impl View for Shape {
    type V = TupleView;

    open spec fn view(&self) -> TupleView {
        self.dims@
    }
}

impl Clone for Shape {
    /// A clone has the same model.
    fn clone(&self) -> (r: Shape)
        ensures
            r@ == self@,
    {
        Shape { dims: self.dims.clone() }
    }
}

impl TupleView {
    /// Number of top-level modes: one for a leaf, the arity otherwise.
    pub open spec fn rank_spec(self) -> int {
        match self {
            TupleView::Leaf(_) => 1,
            TupleView::Node(vs) => vs.len() as int,
        }
    }
}

impl Shape {
    pub fn new(dims: Tuple) -> (r: Shape)
        ensures
            r@ == dims@,
    {
        Shape { dims }
    }

    /// Total number of elements: the product of all extents.
    pub fn size(&self) -> (r: usize)
        requires
            size_ok(self@),
        ensures
            r == self@.size_spec(),
    {
        self.dims.size()
    }

    /// Number of top-level modes.
    pub fn rank(&self) -> (r: usize)
        ensures
            r == self@.rank_spec(),
    {
        match &self.dims {
            Tuple::Int(_) => 1,
            Tuple::Tup(v) => {
                proof {
                    crate::tuple::lemma_node_views_len(v@);
                }
                v.len()
            }
        }
    }

    /// The extent at flattened position `i`.
    pub fn flat_at(&self, i: usize) -> (r: usize)
        requires
            i < self@.flat().len(),
        ensures
            r == self@.flat()[i as int],
    {
        self.dims.flat_at(i)
    }

    /// Number of flattened extents.
    pub fn flat_len(&self) -> (r: usize)
        ensures
            r == self@.flat().len(),
    {
        self.dims.flat_len()
    }

    /// Nesting depth of the extent tree.
    pub fn depth(&self) -> (r: usize)
        requires
            self@.depth_spec() <= usize::MAX,
        ensures
            r == self@.depth_spec(),
    {
        self.dims.depth()
    }

    /// Hierarchical access: the sub-shape at `index`.
    pub fn get(&self, index: usize) -> (r: Shape)
        requires
            index < self@.arity(),
        ensures
            r@ == self@.get_spec(index as int),
    {
        Shape { dims: self.dims.get(index) }
    }

    /// Canonical nested-parenthesis notation of the extents.
    pub fn to_string(&self) -> (r: String)
        ensures
            r@ == tuple_str(self@),
    {
        self.dims.to_string()
    }
}

} // verus!
