//! A hierarchical layout algebra for tensors: recursive extent and
//! stride trees, layouts that map multi-dimensional coordinates onto
//! linear memory offsets, divide transforms that derive tile/grid
//! decompositions, lazy tile enumeration, and zero-copy views that
//! partition a buffer into pairwise disjoint tiles.
//!
//! The layering, leaf first: [`tuple`] holds the recursive integer
//! structure all algebra is built on; [`shape`] and [`stride`] tag it
//! with meaning; [`layout`] pairs a shape with congruent strides and
//! carries the coordinate/offset maps; [`layout_algebra`] derives
//! tiled layouts; [`layout_iter`] and [`tiled_tensor`] enumerate tile
//! positions under the two tiling policies; [`tensor`] owns buffers
//! and hands out views; [`gemm`] lowers dense rank-2 layouts to the
//! parameters a matrix multiply backend consumes.  [`radix`] holds the
//! mixed-radix index arithmetic the other modules share.

pub mod copy;
pub mod dim;
pub mod display;
pub mod gemm;
pub mod indices;
pub mod layout;
pub mod layout_algebra;
pub mod layout_iter;
pub mod radix;
pub mod shape;
pub mod stride;
pub mod tensor;
pub mod tiled_tensor;
pub mod tuple;
