use vstd::prelude::*;
use vstd::string::StringExecFns;
use crate::display::{dec_str, dec_string};

verus! {

/// Zero-sized marker for a compile-time constant dimension.
#[derive(Debug, Clone, Copy, PartialEq, Eq)]
pub struct Const<const N: usize>;

/// A dimension that is either fixed at compile time or chosen at run
/// time.  By convention `N != 0` marks a static dimension and `N == 0`
/// a dynamic one.
#[derive(Debug, Clone, Copy, PartialEq, Eq)]
pub enum Dim<const N: usize> {
    /// Compile-time constant dimension.
    Static(Const<N>),
    /// Runtime dimension; only meaningful when `N == 0`.
    Dynamic(usize),
}

impl<const N: usize> Dim<N> {
    /// The value carried by the dimension.
    pub open spec fn value_spec(self) -> int {
        match self {
            Dim::Static(_) => N as int,
            Dim::Dynamic(v) => v as int,
        }
    }

    /// Notation: static dimensions carry a leading underscore.
    pub open spec fn str_spec(self) -> Seq<char> {
        match self {
            Dim::Static(_) => seq!['_'] + dec_str(N as int),
            Dim::Dynamic(v) => dec_str(v as int),
        }
    }

    /// Construct a compile-time static dimension.
    pub fn static_dim() -> (r: Dim<N>)
        ensures
            r == Dim::<N>::Static(Const),
    {
        Dim::Static(Const)
    }

    /// Construct a runtime dynamic dimension.  Only the dynamic
    /// variant of the type (`N == 0`) can carry one.
    pub fn dynamic(v: usize) -> (r: Dim<N>)
        requires
            N == 0,
        ensures
            r == Dim::<N>::Dynamic(v),
    {
        Dim::Dynamic(v)
    }

    /// Convert a static dimension to a dynamic one with the same value.
    pub fn to_dynamic(&self) -> (r: Dim<0>)
        requires
            N != 0,
        ensures
            r == Dim::<0>::Dynamic(N),
    {
        Dim::Dynamic(N)
    }

    /// The concrete value of the dimension.
    pub fn value(&self) -> (r: usize)
        ensures
            r == self.value_spec(),
    {
        match *self {
            Dim::Static(_) => N,
            Dim::Dynamic(v) => v,
        }
    }

    /// Whether the dimension is compile-time static.
    pub fn is_static(&self) -> (r: bool)
        ensures
            r == (self is Static),
    {
        match self {
            Dim::Static(_) => true,
            Dim::Dynamic(_) => false,
        }
    }

    /// Notation of the dimension: static values carry a leading
    /// underscore, dynamic values print bare.
    pub fn to_string(&self) -> (r: String)
        ensures
            r@ == self.str_spec(),
    {
        match self {
            Dim::Static(_) => {
                let mut s = String::from_str("_");
                proof {
                    reveal_strlit("_");
                }
                let d = dec_string(N);
                s.append(d.as_str());
                proof {
                    assert(s@ =~= seq!['_'] + dec_str(N as int));
                }
                s
            }
            Dim::Dynamic(v) => dec_string(*v),
        }
    }
}

impl From<usize> for Dim<0> {
    /// A plain integer converts to a dynamic dimension.
    fn from(v: usize) -> (r: Dim<0>)
        ensures
            r == Dim::<0>::Dynamic(v),
    {
        Dim::dynamic(v)
    }
}

impl vstd::std_specs::convert::FromSpecImpl<usize> for Dim<0> {
    open spec fn obeys_from_spec() -> bool {
        true
    }

    open spec fn from_spec(v: usize) -> Dim<0> {
        Dim::Dynamic(v)
    }
}

} // verus!
