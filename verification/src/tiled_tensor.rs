//! Disjoint tile partitioning of a view.  The ragged tile iterator
//! walks the raw extents, clipping boundary tiles to whatever remains,
//! so the tiles cover every cell exactly once.

use vstd::prelude::*;
use vstd::arithmetic::div_mod::{lemma_fundamental_div_mod, lemma_mod_bound,
    lemma_div_multiples_vanish, lemma_small_mod, lemma_fundamental_div_mod_converse};
use crate::radix::{seq_prod, encode, decode, in_range, ceil_div, lemma_encode_zero,
    lemma_encode_all_max, lemma_encode_bound, lemma_encode_decode, lemma_encode_ripple,
    lemma_seq_prod_pos, lemma_ceil_div_bounds, lemma_block_of, lemma_decode_in_range,
    lemma_seq_prod_le_pointwise};
use crate::layout::Layout;
use crate::shape::Shape;
use crate::tensor::{TensorView, TensorViewMut};
use crate::tuple::{Tuple, TupleView, leaf_dot};

verus! {

/// A hyper-rectangular sub-region: a start coordinate and the tile's
/// length along each dimension.
#[derive(Debug)]
pub struct Tile {
    pub start: Vec<usize>,
    pub len: Vec<usize>,
}

impl Clone for Tile {
    /// A clone describes the same region.
    fn clone(&self) -> (r: Tile)
        ensures
            r.start@ == self.start@,
            r.len@ == self.len@,
    {
        Tile { start: clone_run(&self.start), len: clone_run(&self.len) }
    }
}

impl Tile {
    /// The start coordinate along `dim`.
    pub fn start(&self, dim: usize) -> (r: usize)
        requires
            dim < self.start@.len(),
        ensures
            r == self.start@[dim as int],
    {
        self.start[dim]
    }

    /// The tile's length along `dim`.
    pub fn len(&self, dim: usize) -> (r: usize)
        requires
            dim < self.len@.len(),
        ensures
            r == self.len@[dim as int],
    {
        self.len[dim]
    }

    /// Number of dimensions of the descriptor.
    pub fn ndim(&self) -> (r: usize)
        ensures
            r == self.start@.len(),
    {
        self.start.len()
    }
}

/// Copy a run of integers.
fn clone_run(v: &Vec<usize>) -> (r: Vec<usize>)
    ensures
        r@ == v@,
{
    let mut out: Vec<usize> = Vec::new();
    let mut i: usize = 0;
    while i < v.len()
        invariant
            0 <= i <= v.len(),
            out@ =~= v@.take(i as int),
        decreases v.len() - i,
    {
        out.push(v[i]);
        assert(out@ =~= v@.take(i + 1));
        i = i + 1;
    }
    proof {
        assert(v@.take(v@.len() as int) =~= v@);
    }
    out
}

/// The ragged tile iterator: advances a multi-index by the tile extent
/// per dimension, clipping each emitted tile to the extent that
/// remains.  Boundary tiles are produced undersized, never dropped.
#[derive(Debug)]
pub struct TileIter {
    pub tile_shape: Vec<usize>,
    pub full_shape: Vec<usize>,
    pub current: Vec<usize>,
    pub done: bool,
}

impl TileIter {
    /// Number of tiles along each dimension, boundary tiles included.
    pub open spec fn grid(self) -> Seq<usize> {
        Seq::new(
            self.full_shape@.len(),
            |d: int| ceil_div(self.full_shape@[d] as int, self.tile_shape@[d] as int) as usize,
        )
    }

    /// The grid position encoded by the current start coordinate.
    pub open spec fn digits(self) -> Seq<int> {
        Seq::new(
            self.current@.len(),
            |d: int| self.current@[d] as int / self.tile_shape@[d] as int,
        )
    }

    /// Number of tiles the enumeration holds in total.
    pub open spec fn total(self) -> int {
        seq_prod(self.grid())
    }

    /// How many tiles have been yielded so far.
    pub open spec fn iter_index(self) -> int {
        if self.done {
            self.total()
        } else {
            encode(self.digits(), self.grid())
        }
    }

    pub open spec fn wf(self) -> bool {
        &&& self.tile_shape@.len() == self.full_shape@.len()
        &&& self.current@.len() == self.full_shape@.len()
        &&& forall|d: int|
            0 <= d < self.full_shape@.len() ==> (1 <= #[trigger] self.tile_shape@[d]
                && 1 <= self.full_shape@[d]
                && self.full_shape@[d] + self.tile_shape@[d] <= usize::MAX
                && self.current@[d] as int % self.tile_shape@[d] as int == 0)
        &&& !self.done ==> in_range(self.digits(), self.grid())
    }

    /// A fresh iterator over the full extents, tiled by the given tile
    /// extents, starting at the origin.
    pub fn new(tile_shape: Vec<usize>, full_shape: Vec<usize>) -> (r: TileIter)
        requires
            tile_shape@.len() == full_shape@.len(),
            forall|d: int|
                0 <= d < full_shape@.len() ==> (1 <= #[trigger] tile_shape@[d]
                    && 1 <= full_shape@[d]
                    && full_shape@[d] + tile_shape@[d] <= usize::MAX),
        ensures
            r.wf(),
            !r.done,
            r.tile_shape@ == tile_shape@,
            r.full_shape@ == full_shape@,
            r.iter_index() == 0,
            forall|d: int| 0 <= d < full_shape@.len() ==> #[trigger] r.current@[d] == 0,
    {
        let ndim = tile_shape.len();
        let mut current: Vec<usize> = Vec::new();
        let mut i: usize = 0;
        while i < ndim
            invariant
                0 <= i <= ndim,
                current@.len() == i,
                forall|d: int| 0 <= d < i ==> #[trigger] current@[d] == 0,
            decreases ndim - i,
        {
            current.push(0);
            i = i + 1;
        }
        let r = TileIter { tile_shape, full_shape, current, done: false };
        proof {
            assert forall|d: int| 0 <= d < r.full_shape@.len() implies
                (1 <= #[trigger] r.tile_shape@[d]
                    && 1 <= r.full_shape@[d]
                    && r.full_shape@[d] + r.tile_shape@[d] <= usize::MAX
                    && r.current@[d] as int % r.tile_shape@[d] as int == 0) by {
                assert(r.current@[d] == 0);
                lemma_small_mod(0, r.tile_shape@[d] as nat);
            }
            assert(in_range(r.digits(), r.grid())) by {
                assert forall|d: int| 0 <= d < r.grid().len() implies
                    (0 <= #[trigger] r.digits()[d] && r.digits()[d] < r.grid()[d]) by {
                    assert(r.current@[d] == 0);
                    lemma_div_multiples_vanish(0, r.tile_shape@[d] as int);
                    assert((r.tile_shape@[d] as int) * 0 == 0) by (nonlinear_arith);
                    assert(r.digits()[d] == 0);
                    lemma_ceil_div_bounds(r.full_shape@[d] as int, r.tile_shape@[d] as int);
                }
            }
            lemma_encode_zero(r.digits(), r.grid());
        }
        r
    }

    /// Yield the next tile of the enumeration, or nothing once every
    /// tile has been produced.  Each tile starts at the current
    /// multi-index and is clipped to the extent that remains.
    pub fn next(&mut self) -> (r: Option<Tile>)
        requires
            old(self).wf(),
        ensures
            final(self).wf(),
            final(self).tile_shape@ == old(self).tile_shape@,
            final(self).full_shape@ == old(self).full_shape@,
            old(self).done ==> (r is None && *final(self) == *old(self)),
            !old(self).done ==> {
                let t = old(self).tile_shape@;
                let f = old(self).full_shape@;
                let n = f.len();
                &&& r is Some
                &&& (r->0).start@ == old(self).current@
                &&& (r->0).len@.len() == n
                &&& forall|d: int|
                    0 <= d < n ==> (#[trigger] (r->0).len@[d]) as int == (
                    if t[d] as int <= f[d] - (r->0).start@[d] {
                        t[d] as int
                    } else {
                        f[d] - (r->0).start@[d]
                    })
                &&& forall|d: int|
                    0 <= d < n ==> (#[trigger] (r->0).start@[d]) as int == t[d]
                        * decode(old(self).iter_index(), old(self).grid())[d]
                &&& forall|d: int| 0 <= d < n ==> (r->0).start@[d] < f[d]
                &&& final(self).iter_index() == old(self).iter_index() + 1
            },
    {
        if self.done {
            return None;
        }
        let ghost o = *self;
        proof {
            assert(crate::radix::all_pos(o.grid())) by {
                assert forall|d: int| 0 <= d < o.grid().len() implies 1 <= o.grid()[d] by {
                    assert(0 <= o.digits()[d] && o.digits()[d] < o.grid()[d]);
                }
            }
            lemma_encode_decode(o.digits(), o.grid());
            assert forall|d: int| 0 <= d < o.current@.len() implies
                ((#[trigger] o.current@[d]) as int == o.tile_shape@[d]
                    * decode(o.iter_index(), o.grid())[d] && o.current@[d] < o.full_shape@[d]) by {
                lemma_fundamental_div_mod(o.current@[d] as int, o.tile_shape@[d] as int);
                assert(decode(o.iter_index(), o.grid())[d] == o.digits()[d]);
                // below the full extent: at most the last tile start
                let st = o.tile_shape@[d] as int;
                let dg = o.digits()[d];
                let g = o.grid()[d] as int;
                lemma_ceil_div_bounds(o.full_shape@[d] as int, st);
                assert(st * dg <= st * (g - 1)) by (nonlinear_arith)
                    requires
                        dg <= g - 1,
                        st >= 1,
                ;
                assert(st * (g - 1) == (g - 1) * st) by (nonlinear_arith);
            }
        }
        let n = self.current.len();
        let start = clone_run(&self.current);
        let mut len: Vec<usize> = Vec::new();
        let mut i: usize = 0;
        while i < n
            invariant
                *self == o,
                o.wf(),
                !o.done,
                o.current@.len() == n,
                forall|d: int| 0 <= d < n ==> #[trigger] o.current@[d] < o.full_shape@[d],
                start@ == o.current@,
                0 <= i <= n,
                len@.len() == i,
                forall|d: int|
                    0 <= d < i ==> (#[trigger] len@[d]) as int == (
                    if o.tile_shape@[d] as int <= o.full_shape@[d] - o.current@[d] {
                        o.tile_shape@[d] as int
                    } else {
                        o.full_shape@[d] - o.current@[d]
                    }),
            decreases n - i,
        {
            let remaining = self.full_shape[i] - self.current[i];
            if self.tile_shape[i] <= remaining {
                len.push(self.tile_shape[i]);
            } else {
                len.push(remaining);
            }
            i = i + 1;
        }
        let mut d = n;
        let mut moved = false;
        while d > 0 && !moved
            invariant
                self.tile_shape@ == o.tile_shape@,
                self.full_shape@ == o.full_shape@,
                self.done == o.done,
                !o.done,
                o.wf(),
                self.current@.len() == n,
                o.current@.len() == n,
                o.full_shape@.len() == n,
                0 <= d <= n,
                forall|j: int| 0 <= j < d ==> #[trigger] self.current@[j] == o.current@[j],
                !moved ==> forall|j: int|
                    d <= j < n ==> (#[trigger] self.current@[j] == 0
                        && o.digits()[j] == o.grid()[j] - 1),
                moved ==> {
                    &&& in_range(self.digits(), o.grid())
                    &&& encode(self.digits(), o.grid()) == encode(o.digits(), o.grid()) + 1
                    &&& forall|j: int|
                        0 <= j < n ==> (#[trigger] self.current@[j]) as int
                            % o.tile_shape@[j] as int == 0
                },
            decreases d,
        {
            d = d - 1;
            proof {
                assert(o.current@[d as int] as int % o.tile_shape@[d as int] as int == 0);
                lemma_fundamental_div_mod(
                    o.current@[d as int] as int,
                    o.tile_shape@[d as int] as int,
                );
                assert(o.digits()[d as int] < o.grid()[d as int]);
                let st = o.tile_shape@[d as int] as int;
                let dg = o.digits()[d as int];
                let g = o.grid()[d as int] as int;
                lemma_ceil_div_bounds(o.full_shape@[d as int] as int, st);
                assert(o.current@[d as int] as int == st * dg);
                assert(st * dg <= st * (g - 1)) by (nonlinear_arith)
                    requires
                        dg <= g - 1,
                        st >= 1,
                ;
                assert(st * (g - 1) == (g - 1) * st) by (nonlinear_arith);
                assert(o.current@[d as int] < o.full_shape@[d as int]);
                assert(st * dg + st == st * (dg + 1)) by (nonlinear_arith);
            }
            let c2 = self.current[d] + self.tile_shape[d];
            self.current[d] = c2;
            if self.current[d] < self.full_shape[d] {
                moved = true;
                proof {
                    let st = o.tile_shape@[d as int] as int;
                    let dg = o.digits()[d as int];
                    let g = o.grid()[d as int] as int;
                    lemma_ceil_div_bounds(o.full_shape@[d as int] as int, st);
                    lemma_div_multiples_vanish(dg + 1, st);
                    assert(c2 as int == st * (dg + 1));
                    assert(self.current@[d as int] as int / st == dg + 1);
                    // the stepped digit stays below the grid extent
                    assert(st * (dg + 1) < o.full_shape@[d as int] as int);
                    assert(o.full_shape@[d as int] as int <= g * st);
                    assert(g * st == st * g) by (nonlinear_arith);
                    assert(dg + 1 < g) by (nonlinear_arith)
                        requires
                            st * (dg + 1) < st * g,
                            st >= 1,
                    ;
                    let nds = self.digits();
                    assert forall|j: int| 0 <= j < d implies nds[j] == o.digits()[j] by {}
                    assert forall|j: int| d < j < n implies nds[j] == 0 by {
                        assert(self.current@[j] == 0);
                        lemma_div_multiples_vanish(0, o.tile_shape@[j] as int);
                        assert((o.tile_shape@[j] as int) * 0 == 0) by (nonlinear_arith);
                    }
                    assert(nds[d as int] == dg + 1);
                    assert(crate::radix::all_pos(o.grid())) by {
                        assert forall|j: int| 0 <= j < o.grid().len() implies
                            1 <= o.grid()[j] by {
                            assert(0 <= o.digits()[j] && o.digits()[j] < o.grid()[j]);
                        }
                    }
                    assert forall|j: int| d < j < n implies
                        o.digits()[j] == o.grid()[j] - 1 by {
                        assert(self.current@[j] == 0);
                    }
                    lemma_encode_ripple(o.digits(), nds, o.grid(), d as int);
                    assert forall|j: int| 0 <= j < n implies
                        (#[trigger] self.current@[j]) as int
                            % o.tile_shape@[j] as int == 0 by {
                        if j == d {
                            vstd::arithmetic::div_mod::lemma_mod_multiples_basic(
                                dg + 1,
                                st,
                            );
                            assert((dg + 1) * st == st * (dg + 1)) by (nonlinear_arith);
                        } else if j > d {
                            lemma_small_mod(0, o.tile_shape@[j] as nat);
                        }
                    }
                }
            } else {
                proof {
                    let st = o.tile_shape@[d as int] as int;
                    let dg = o.digits()[d as int];
                    let g = o.grid()[d as int] as int;
                    lemma_ceil_div_bounds(o.full_shape@[d as int] as int, st);
                    assert(st * (dg + 1) >= o.full_shape@[d as int] as int);
                    assert((g - 1) * st < o.full_shape@[d as int] as int);
                    assert((g - 1) * st == st * (g - 1)) by (nonlinear_arith);
                    assert(st * (g - 1) < st * (dg + 1));
                    assert(g - 1 < dg + 1) by (nonlinear_arith)
                        requires
                            st * (g - 1) < st * (dg + 1),
                            st >= 1,
                    ;
                    assert(dg == g - 1);
                }
                self.current[d] = 0;
            }
        }
        if !moved {
            self.done = true;
            proof {
                assert forall|j: int| 0 <= j < n implies
                    o.digits()[j] == o.grid()[j] - 1 by {
                    assert(self.current@[j] == 0);
                }
                assert(crate::radix::all_pos(o.grid())) by {
                    assert forall|j: int| 0 <= j < o.grid().len() implies
                        1 <= o.grid()[j] by {
                        assert(0 <= o.digits()[j] && o.digits()[j] < o.grid()[j]);
                    }
                }
                lemma_encode_all_max(o.digits(), o.grid());
                assert(self.iter_index() == o.iter_index() + 1);
                assert forall|j: int| 0 <= j < n implies
                    (#[trigger] self.current@[j]) as int % o.tile_shape@[j] as int == 0 by {
                    lemma_small_mod(0, o.tile_shape@[j] as nat);
                    assert(self.current@[j] == 0);
                }
            }
        } else {
            proof {
                lemma_encode_bound(o.digits(), o.grid());
                assert(self.iter_index() == o.iter_index() + 1);
            }
        }
        Some(Tile { start, len })
    }
}

/// Which tile of the ragged enumeration covers a cell: the one whose
/// start is the largest tile multiple at or below it, per dimension.
pub open spec fn cover_index(t: Seq<usize>, f: Seq<usize>, cell: Seq<int>) -> int {
    encode(
        Seq::new(t.len(), |d: int| cell[d] / (t[d] as int)),
        Seq::new(t.len(), |d: int| ceil_div(f[d] as int, t[d] as int) as usize),
    )
}

/// Whether the `k`-th tile of the ragged enumeration over extents `f`
/// with tile extents `t` contains the cell.
pub open spec fn in_tile(t: Seq<usize>, f: Seq<usize>, k: int, cell: Seq<int>) -> bool {
    let g = Seq::new(t.len(), |d: int| ceil_div(f[d] as int, t[d] as int) as usize);
    forall|d: int|
        0 <= d < t.len() ==> {
            let start = t[d] * decode(k, g)[d];
            let len = if t[d] as int <= f[d] - start {
                t[d] as int
            } else {
                f[d] - start
            };
            start <= #[trigger] cell[d] && cell[d] < start + len
        }
}

/// The tiles of the ragged enumeration are pairwise disjoint and cover
/// every cell: each cell of the full index space lies in exactly one
/// tile, the one at its cover index.
pub proof fn lemma_tiles_disjoint_cover(t: Seq<usize>, f: Seq<usize>, cell: Seq<int>)
    requires
        t.len() == f.len(),
        cell.len() == f.len(),
        forall|d: int| 0 <= d < t.len() ==> 1 <= #[trigger] t[d],
        forall|d: int| 0 <= d < f.len() ==> (0 <= #[trigger] cell[d] && cell[d] < f[d]),
    ensures
        ({
            let g = Seq::new(t.len(), |d: int| ceil_div(f[d] as int, t[d] as int) as usize);
            &&& 0 <= cover_index(t, f, cell) < seq_prod(g)
            &&& forall|k: int|
                0 <= k < seq_prod(g) ==> (in_tile(t, f, k, cell) <==> k == cover_index(
                    t,
                    f,
                    cell,
                ))
        }),
{
    let g = Seq::new(t.len(), |d: int| ceil_div(f[d] as int, t[d] as int) as usize);
    let ds = Seq::new(t.len(), |d: int| cell[d] / (t[d] as int));
    assert(in_range(ds, g)) by {
        assert forall|d: int| 0 <= d < g.len() implies (0 <= #[trigger] ds[d]
            && ds[d] < g[d]) by {
            lemma_block_of(cell[d], t[d] as int, f[d] as int);
            lemma_ceil_div_bounds(f[d] as int, t[d] as int);
            let c = ceil_div(f[d] as int, t[d] as int);
            assert(c - 1 <= (c - 1) * (t[d] as int)) by (nonlinear_arith)
                requires
                    t[d] >= 1,
                    c >= 1,
            ;
            assert(c <= f[d]);
            assert(g[d] as int == c);
        }
    }
    lemma_encode_bound(ds, g);
    assert(cover_index(t, f, cell) == encode(ds, g));
    assert forall|k: int| 0 <= k < seq_prod(g) implies
        (in_tile(t, f, k, cell) <==> k == cover_index(t, f, cell)) by {
        lemma_decode_in_range(k, g);
        if k == cover_index(t, f, cell) {
            lemma_encode_decode(ds, g);
            assert(decode(k, g) == ds);
            assert forall|d: int| 0 <= d < t.len() implies {
                let start = t[d] * decode(k, g)[d];
                let len = if t[d] as int <= f[d] - start {
                    t[d] as int
                } else {
                    f[d] - start
                };
                start <= #[trigger] cell[d] && cell[d] < start + len
            } by {
                lemma_block_of(cell[d], t[d] as int, f[d] as int);
                assert(decode(k, g)[d] == cell[d] / (t[d] as int));
                assert(t[d] * (cell[d] / (t[d] as int))
                    == (cell[d] / (t[d] as int)) * (t[d] as int)) by (nonlinear_arith);
            }
            assert(in_tile(t, f, k, cell));
        }
        if in_tile(t, f, k, cell) {
            assert forall|d: int| 0 <= d < t.len() implies
                #[trigger] decode(k, g)[d] == ds[d] by {
                let start = t[d] * decode(k, g)[d];
                let len = if t[d] as int <= f[d] - start {
                    t[d] as int
                } else {
                    f[d] - start
                };
                assert(start <= cell[d] && cell[d] < start + len);
                assert(cell[d] < start + t[d]);
                assert(0 <= decode(k, g)[d]);
                lemma_fundamental_div_mod_converse(
                    cell[d],
                    t[d] as int,
                    decode(k, g)[d],
                    cell[d] - start,
                );
                assert(ds[d] == cell[d] / (t[d] as int));
            }
            assert(decode(k, g) =~= ds);
            assert(encode(decode(k, g), g) == k);
            assert(k == encode(ds, g));
        }
    }
}

/// An immutable view together with its lazy tile enumeration.  The
/// tiles partition the view: pairwise disjoint, jointly covering.
pub struct TiledTensorView {
    pub base: TensorView,
    pub tile_layout: Layout,
    pub tile_iter: TileIter,
}

/// A mutable view together with its lazy tile enumeration.
pub struct TiledTensorViewMut {
    pub base: TensorViewMut,
    pub tile_layout: Layout,
    pub tile_iter: TileIter,
}

impl TiledTensorView {
    pub open spec fn wf(self) -> bool {
        &&& self.tile_iter.wf()
        &&& self.tile_iter.full_shape@ == self.base.layout.shape@.flat()
        &&& self.base.layout.stride@ is Leaf
        &&& self.base.layout.stride@.flat().len() == self.tile_iter.tile_shape@.len()
        &&& self.base.layout.shape@.size_spec() <= usize::MAX
    }

    /// Pair a view with a tiler: the iteration space comes from
    /// `flat_divide`, seeded over the raw extents so boundary tiles are
    /// clipped rather than dropped.
    pub fn new(base: TensorView, tiler: Layout) -> (r: TiledTensorView)
        requires
            tiler.shape@.congruent(base.layout.shape@),
            forall|d: int|
                0 <= d < tiler.shape@.flat().len() ==> (1 <= #[trigger] tiler.shape@.flat()[d]
                    && tiler.shape@.flat()[d] <= base.layout.shape@.flat()[d]
                    && base.layout.shape@.flat()[d] + tiler.shape@.flat()[d] <= usize::MAX),
            base.layout.shape@.size_spec() <= usize::MAX,
            base.layout.stride@ is Leaf,
            base.layout.stride@.flat().len() == base.layout.shape@.flat().len(),
        ensures
            r.wf(),
            r.base == base,
            r.tile_iter.tile_shape@ == tiler.shape@.flat(),
            r.tile_iter.full_shape@ == base.layout.shape@.flat(),
            !r.tile_iter.done,
            r.tile_iter.iter_index() == 0,
    {
        let ghost lf = base.layout.shape@.flat();
        let ghost tf = tiler.shape@.flat();
        let flat = crate::layout_algebra::flat_divide(&base.layout, &tiler);
        let total_dims = flat.shape.dims.flatten();
        let tile_len = tiler.shape.dims.flat_len();
        proof {
            crate::tuple::lemma_congruent_flat_len(tiler.shape@, base.layout.shape@);
            assert(total_dims@ == tf + crate::radix::quot_seq(lf, tf));
        }
        let mut tile_dims: Vec<usize> = Vec::new();
        let mut i: usize = 0;
        while i < tile_len
            invariant
                total_dims@ == tf + crate::radix::quot_seq(lf, tf),
                tf.len() == tile_len,
                total_dims@.len() >= tile_len,
                0 <= i <= tile_len,
                tile_dims@ =~= tf.take(i as int),
            decreases tile_len - i,
        {
            proof {
                assert(total_dims@[i as int] == tf[i as int]);
            }
            tile_dims.push(total_dims[i]);
            assert(tile_dims@ =~= tf.take(i + 1));
            i = i + 1;
        }
        proof {
            assert(tf.take(tf.len() as int) =~= tf);
        }
        let full_dims = base.layout.shape.dims.flatten();
        let ti = TileIter::new(tile_dims, full_dims);
        TiledTensorView { base, tile_layout: tiler, tile_iter: ti }
    }

    /// Advance the enumeration by one step: the next tile descriptor
    /// paired with the sub-view of the base at its start and lengths.
    /// The sequence is single-pass; once exhausted it stays empty.
    pub fn tiles(&mut self) -> (r: Option<(Tile, TensorView)>)
        requires
            old(self).wf(),
            !old(self).tile_iter.done ==> leaf_dot(
                old(self).tile_iter.current@,
                old(self).base.layout.stride@.flat(),
            ) + old(self).base.offset <= usize::MAX,
        ensures
            final(self).wf(),
            final(self).base == old(self).base,
            final(self).tile_iter.tile_shape@ == old(self).tile_iter.tile_shape@,
            final(self).tile_iter.full_shape@ == old(self).tile_iter.full_shape@,
            old(self).tile_iter.done ==> r is None,
            !old(self).tile_iter.done ==> {
                let t = old(self).tile_iter.tile_shape@;
                let f = old(self).tile_iter.full_shape@;
                let n = f.len();
                let tile = (r->0).0;
                let sub = (r->0).1;
                &&& r is Some
                &&& tile.start@ == old(self).tile_iter.current@
                &&& tile.len@.len() == n
                &&& forall|d: int|
                    0 <= d < n ==> (#[trigger] tile.len@[d]) as int == (
                    if t[d] as int <= f[d] - tile.start@[d] {
                        t[d] as int
                    } else {
                        f[d] - tile.start@[d]
                    })
                &&& forall|d: int|
                    0 <= d < n ==> (#[trigger] tile.start@[d]) as int == t[d]
                        * decode(old(self).tile_iter.iter_index(), old(self).tile_iter.grid())[d]
                &&& sub.offset == old(self).base.offset + leaf_dot(
                    tile.start@,
                    old(self).base.layout.stride@.flat(),
                )
                &&& sub.layout.shape@ == TupleView::Leaf(tile.len@)
                &&& sub.layout.stride@ == old(self).base.layout.stride@
                &&& final(self).tile_iter.iter_index() == old(self).tile_iter.iter_index() + 1
            },
    {
        let ghost o = *self;
        let nx = self.tile_iter.next();
        match nx {
            None => None,
            Some(tile) => {
                let start_t = Tuple::Int(clone_run(&tile.start));
                let len_t = Tuple::Int(clone_run(&tile.len));
                let sub_shape = Shape::new(len_t);
                proof {
                    lemma_tile_subview_ok(o.tile_iter, o.base.layout.stride@, tile.start@, tile.len@);
                    lemma_size_flat_pub(o.base.layout.shape@);
                }
                let sub = self.base.subview(&start_t, &sub_shape);
                Some((tile, sub))
            }
        }
    }
}

impl TiledTensorViewMut {
    pub open spec fn wf(self) -> bool {
        &&& self.tile_iter.wf()
        &&& self.tile_iter.full_shape@ == self.base.layout.shape@.flat()
        &&& self.base.layout.stride@ is Leaf
        &&& self.base.layout.stride@.flat().len() == self.tile_iter.tile_shape@.len()
        &&& self.base.layout.shape@.size_spec() <= usize::MAX
    }

    /// Pair a mutable view with a tiler, as for the immutable form.
    pub fn new(base: TensorViewMut, tiler: Layout) -> (r: TiledTensorViewMut)
        requires
            tiler.shape@.congruent(base.layout.shape@),
            forall|d: int|
                0 <= d < tiler.shape@.flat().len() ==> (1 <= #[trigger] tiler.shape@.flat()[d]
                    && tiler.shape@.flat()[d] <= base.layout.shape@.flat()[d]
                    && base.layout.shape@.flat()[d] + tiler.shape@.flat()[d] <= usize::MAX),
            base.layout.shape@.size_spec() <= usize::MAX,
            base.layout.stride@ is Leaf,
            base.layout.stride@.flat().len() == base.layout.shape@.flat().len(),
        ensures
            r.wf(),
            r.base == base,
            r.tile_iter.tile_shape@ == tiler.shape@.flat(),
            r.tile_iter.full_shape@ == base.layout.shape@.flat(),
            !r.tile_iter.done,
            r.tile_iter.iter_index() == 0,
    {
        let ghost lf = base.layout.shape@.flat();
        let ghost tf = tiler.shape@.flat();
        let flat = crate::layout_algebra::flat_divide(&base.layout, &tiler);
        let total_dims = flat.shape.dims.flatten();
        let tile_len = tiler.shape.dims.flat_len();
        proof {
            crate::tuple::lemma_congruent_flat_len(tiler.shape@, base.layout.shape@);
            assert(total_dims@ == tf + crate::radix::quot_seq(lf, tf));
        }
        let mut tile_dims: Vec<usize> = Vec::new();
        let mut i: usize = 0;
        while i < tile_len
            invariant
                total_dims@ == tf + crate::radix::quot_seq(lf, tf),
                tf.len() == tile_len,
                total_dims@.len() >= tile_len,
                0 <= i <= tile_len,
                tile_dims@ =~= tf.take(i as int),
            decreases tile_len - i,
        {
            proof {
                assert(total_dims@[i as int] == tf[i as int]);
            }
            tile_dims.push(total_dims[i]);
            assert(tile_dims@ =~= tf.take(i + 1));
            i = i + 1;
        }
        proof {
            assert(tf.take(tf.len() as int) =~= tf);
        }
        let full_dims = base.layout.shape.dims.flatten();
        let ti = TileIter::new(tile_dims, full_dims);
        TiledTensorViewMut { base, tile_layout: tiler, tile_iter: ti }
    }

    /// Advance the enumeration by one step: the next tile descriptor
    /// paired with the mutable sub-view of the base at its start and
    /// lengths.
    pub fn tiles_mut(&mut self) -> (r: Option<(Tile, TensorViewMut)>)
        requires
            old(self).wf(),
            !old(self).tile_iter.done ==> leaf_dot(
                old(self).tile_iter.current@,
                old(self).base.layout.stride@.flat(),
            ) + old(self).base.offset <= usize::MAX,
        ensures
            final(self).wf(),
            final(self).base == old(self).base,
            final(self).tile_iter.tile_shape@ == old(self).tile_iter.tile_shape@,
            final(self).tile_iter.full_shape@ == old(self).tile_iter.full_shape@,
            old(self).tile_iter.done ==> r is None,
            !old(self).tile_iter.done ==> {
                let t = old(self).tile_iter.tile_shape@;
                let f = old(self).tile_iter.full_shape@;
                let n = f.len();
                let tile = (r->0).0;
                let sub = (r->0).1;
                &&& r is Some
                &&& tile.start@ == old(self).tile_iter.current@
                &&& tile.len@.len() == n
                &&& forall|d: int|
                    0 <= d < n ==> (#[trigger] tile.len@[d]) as int == (
                    if t[d] as int <= f[d] - tile.start@[d] {
                        t[d] as int
                    } else {
                        f[d] - tile.start@[d]
                    })
                &&& forall|d: int|
                    0 <= d < n ==> (#[trigger] tile.start@[d]) as int == t[d]
                        * decode(old(self).tile_iter.iter_index(), old(self).tile_iter.grid())[d]
                &&& sub.offset == old(self).base.offset + leaf_dot(
                    tile.start@,
                    old(self).base.layout.stride@.flat(),
                )
                &&& sub.layout.shape@ == TupleView::Leaf(tile.len@)
                &&& sub.layout.stride@ == old(self).base.layout.stride@
                &&& final(self).tile_iter.iter_index() == old(self).tile_iter.iter_index() + 1
            },
    {
        let ghost o = *self;
        let nx = self.tile_iter.next();
        match nx {
            None => None,
            Some(tile) => {
                let start_t = Tuple::Int(clone_run(&tile.start));
                let len_t = Tuple::Int(clone_run(&tile.len));
                let sub_shape = Shape::new(len_t);
                proof {
                    lemma_tile_subview_ok(o.tile_iter, o.base.layout.stride@, tile.start@, tile.len@);
                    lemma_size_flat_pub(o.base.layout.shape@);
                }
                let sub = self.base.subview_mut(&start_t, &sub_shape);
                Some((tile, sub))
            }
        }
    }
}

/// The sub-shape a clipped tile induces is positive, no larger than
/// the base extents, and congruent with the base's leaf stride.
proof fn lemma_tile_subview_ok(
    ti: TileIter,
    stride: TupleView,
    start: Seq<usize>,
    len: Seq<usize>,
)
    requires
        ti.wf(),
        stride is Leaf,
        stride.flat().len() == ti.tile_shape@.len(),
        start.len() == ti.full_shape@.len(),
        len.len() == ti.full_shape@.len(),
        forall|d: int| 0 <= d < start.len() ==> #[trigger] start[d] < ti.full_shape@[d],
        forall|d: int|
            0 <= d < len.len() ==> (#[trigger] len[d]) as int == (
            if ti.tile_shape@[d] as int <= ti.full_shape@[d] - start[d] {
                ti.tile_shape@[d] as int
            } else {
                ti.full_shape@[d] - start[d]
            }),
    ensures
        TupleView::Leaf(start).congruent(stride),
        TupleView::Leaf(start).dot_spec(stride) == leaf_dot(start, stride.flat()),
        TupleView::Leaf(len).leaves_pos(),
        TupleView::Leaf(len).size_spec() <= seq_prod(ti.full_shape@),
        TupleView::Leaf(len).flat().len() == stride.flat().len(),
{
    match stride {
        TupleView::Leaf(run) => {
            assert(stride.flat() == run);
        }
        _ => {}
    }
    assert(crate::radix::all_pos(len)) by {
        assert forall|d: int| 0 <= d < len.len() implies 1 <= #[trigger] len[d] by {}
    }
    assert forall|d: int| 0 <= d < len.len() implies #[trigger] len[d] <= ti.full_shape@[d] by {}
    lemma_seq_prod_le_pointwise(len, ti.full_shape@);
}

/// The size of a shape is the product of its flattened extents.
proof fn lemma_size_flat_pub(sh: TupleView)
    ensures
        sh.size_spec() == seq_prod(sh.flat()),
{
    crate::tuple::lemma_size_is_flat_prod(sh);
}

} // verus!
