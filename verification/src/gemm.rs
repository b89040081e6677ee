//! Lowering of dense rank-2 layouts to the parameters a matrix
//! multiply backend consumes: leading dimensions and transpose flags,
//! determined by which stride equals one.

use vstd::prelude::*;
use crate::layout::Layout;

verus! {

/// Whether an operand is handed to the backend transposed.
#[derive(Debug, Clone, Copy, PartialEq, Eq, Structural)]
pub enum BlasTranspose {
    NoTrans,
    Trans,
}

/// The parameters a dense matrix multiply call consumes, lowered from
/// three rank-2 layouts.
#[derive(Debug, Clone, Copy, PartialEq, Eq, Structural)]
pub struct GemmLowering {
    pub m: i32,
    pub n: i32,
    pub k: i32,
    pub lda: i32,
    pub ta: BlasTranspose,
    pub ldb: i32,
    pub tb: BlasTranspose,
    pub ldc: i32,
}

/// Lower a dense rank-2 layout to a leading dimension and a transpose
/// flag.  Inner stride one is row-major: no transpose, the leading
/// dimension is the outer stride.  Outer stride one is column-major:
/// transpose, the leading dimension is the inner stride.
pub fn lower_matrix(layout: &Layout) -> (r: (i32, BlasTranspose))
    requires
        layout.shape@.flat().len() == 2,
        layout.stride@.flat().len() == 2,
        layout.stride@.flat()[1] == 1 || layout.stride@.flat()[0] == 1,
        layout.stride@.flat()[1] == 1 ==> layout.stride@.flat()[0] <= i32::MAX,
        layout.stride@.flat()[1] != 1 ==> layout.stride@.flat()[1] <= i32::MAX,
    ensures
        layout.stride@.flat()[1] == 1 ==> r == (
            layout.stride@.flat()[0] as i32,
            BlasTranspose::NoTrans,
        ),
        layout.stride@.flat()[1] != 1 ==> r == (
            layout.stride@.flat()[1] as i32,
            BlasTranspose::Trans,
        ),
{
    let s0 = layout.stride.flat_at(0);
    let s1 = layout.stride.flat_at(1);
    if s1 == 1 {
        (s0 as i32, BlasTranspose::NoTrans)
    } else {
        (s1 as i32, BlasTranspose::Trans)
    }
}

/// Total form of the lowering: a layout that is not rank-2, has
/// neither stride equal to one, or does not fit the backend's index
/// type is rejected with nothing.
pub fn try_lower_matrix(layout: &Layout) -> (r: Option<(i32, BlasTranspose)>)
    ensures
        ({
            let sh = layout.shape@.flat();
            let st = layout.stride@.flat();
            if sh.len() == 2 && st.len() == 2 && st[1] == 1 && st[0] <= i32::MAX {
                r == Some((st[0] as i32, BlasTranspose::NoTrans))
            } else if sh.len() == 2 && st.len() == 2 && st[1] != 1 && st[0] == 1
                && st[1] <= i32::MAX {
                r == Some((st[1] as i32, BlasTranspose::Trans))
            } else {
                r is None
            }
        }),
{
    if layout.shape.flat_len() != 2 {
        return None;
    }
    if layout.stride.flat_len() != 2 {
        return None;
    }
    let s0 = layout.stride.flat_at(0);
    let s1 = layout.stride.flat_at(1);
    if s1 == 1 {
        if s0 <= (i32::MAX as usize) {
            Some((s0 as i32, BlasTranspose::NoTrans))
        } else {
            None
        }
    } else if s0 == 1 {
        if s1 <= (i32::MAX as usize) {
            Some((s1 as i32, BlasTranspose::Trans))
        } else {
            None
        }
    } else {
        None
    }
}

/// Lower a dense `(M,K) x (K,N) -> (M,N)` triple to one backend call's
/// parameters.  The operand shapes must agree on the shared
/// dimensions, every operand must carry its contiguity flag, and each
/// operand must have a unit stride on one of its two dimensions.
pub fn lower_gemm(a: &Layout, b: &Layout, c: &Layout) -> (r: GemmLowering)
    requires
        a.shape@.flat().len() == 2,
        b.shape@.flat().len() == 2,
        c.shape@.flat().len() == 2,
        a.stride@.flat().len() == 2,
        b.stride@.flat().len() == 2,
        c.stride@.flat().len() == 2,
        b.shape@.flat()[0] == a.shape@.flat()[1],
        c.shape@.flat()[0] == a.shape@.flat()[0],
        c.shape@.flat()[1] == b.shape@.flat()[1],
        a.shape@.flat()[0] <= i32::MAX,
        a.shape@.flat()[1] <= i32::MAX,
        b.shape@.flat()[1] <= i32::MAX,
        a.contig,
        b.contig,
        c.contig,
        a.stride@.flat()[1] == 1 || a.stride@.flat()[0] == 1,
        a.stride@.flat()[1] == 1 ==> a.stride@.flat()[0] <= i32::MAX,
        a.stride@.flat()[1] != 1 ==> a.stride@.flat()[1] <= i32::MAX,
        b.stride@.flat()[1] == 1 || b.stride@.flat()[0] == 1,
        b.stride@.flat()[1] == 1 ==> b.stride@.flat()[0] <= i32::MAX,
        b.stride@.flat()[1] != 1 ==> b.stride@.flat()[1] <= i32::MAX,
        c.stride@.flat()[0] <= i32::MAX,
    ensures
        r.m == a.shape@.flat()[0] as i32,
        r.k == a.shape@.flat()[1] as i32,
        r.n == b.shape@.flat()[1] as i32,
        a.stride@.flat()[1] == 1 ==> (r.lda == a.stride@.flat()[0] as i32
            && r.ta == BlasTranspose::NoTrans),
        a.stride@.flat()[1] != 1 ==> (r.lda == a.stride@.flat()[1] as i32
            && r.ta == BlasTranspose::Trans),
        b.stride@.flat()[1] == 1 ==> (r.ldb == b.stride@.flat()[0] as i32
            && r.tb == BlasTranspose::NoTrans),
        b.stride@.flat()[1] != 1 ==> (r.ldb == b.stride@.flat()[1] as i32
            && r.tb == BlasTranspose::Trans),
        r.ldc == c.stride@.flat()[0] as i32,
{
    let m = a.shape.flat_at(0);
    let k = a.shape.flat_at(1);
    let n = b.shape.flat_at(1);
    let (lda, ta) = lower_matrix(a);
    let (ldb, tb) = lower_matrix(b);
    let ldc = c.stride.flat_at(0);
    GemmLowering {
        m: m as i32,
        n: n as i32,
        k: k as i32,
        lda,
        ta,
        ldb,
        tb,
        ldc: ldc as i32,
    }
}

} // verus!
