//! Rendering of tuples in the canonical nested-parenthesis notation,
//! e.g. `(2,(3,4))`; a run of length one prints as the bare number.

use vstd::prelude::*;
use vstd::arithmetic::div_mod::{lemma_div_pos_is_pos, lemma_div_is_strictly_smaller};
use vstd::string::StringExecFns;
use crate::tuple::{Tuple, TupleView, node_views, lemma_node_views_len, lemma_node_views_index};

verus! {

/// The character for one decimal digit.
pub open spec fn dec_digit(d: int) -> char {
    if d == 0 {
        '0'
    } else if d == 1 {
        '1'
    } else if d == 2 {
        '2'
    } else if d == 3 {
        '3'
    } else if d == 4 {
        '4'
    } else if d == 5 {
        '5'
    } else if d == 6 {
        '6'
    } else if d == 7 {
        '7'
    } else if d == 8 {
        '8'
    } else {
        '9'
    }
}

/// Decimal notation of a non-negative integer.
pub open spec fn dec_str(n: int) -> Seq<char>
    decreases n,
    via dec_str_decreases
{
    if n < 10 {
        seq![dec_digit(n)]
    } else {
        dec_str(n / 10).push(dec_digit(n % 10))
    }
}

#[via_fn]
proof fn dec_str_decreases(n: int) {
    if n >= 10 {
        lemma_div_pos_is_pos(n, 10);
        lemma_div_is_strictly_smaller(n, 10);
    }
}

/// Comma-joined decimal notation of a run of integers.
pub open spec fn leaf_run_str(v: Seq<usize>) -> Seq<char>
    decreases v.len(),
{
    if v.len() == 0 {
        Seq::empty()
    } else if v.len() == 1 {
        dec_str(v[0] as int)
    } else {
        leaf_run_str(v.drop_last()) + seq![','] + dec_str(v.last() as int)
    }
}

/// Comma-joined notation of a run of trees.
pub open spec fn node_run_str(vs: Seq<TupleView>) -> Seq<char>
    decreases vs,
{
    if vs.len() == 0 {
        Seq::empty()
    } else if vs.len() == 1 {
        tuple_str(vs[0])
    } else {
        node_run_str(vs.drop_last()) + seq![','] + tuple_str(vs.last())
    }
}

/// Canonical notation of a tree: a single entry prints bare, anything
/// else is wrapped in parentheses.
pub open spec fn tuple_str(tv: TupleView) -> Seq<char>
    decreases tv,
{
    match tv {
        TupleView::Leaf(v) => if v.len() == 1 {
            dec_str(v[0] as int)
        } else {
            seq!['('] + leaf_run_str(v) + seq![')']
        },
        TupleView::Node(vs) => if vs.len() == 1 {
            tuple_str(vs[0])
        } else {
            seq!['('] + node_run_str(vs) + seq![')']
        },
    }
}

proof fn lemma_leaf_run_take_succ(v: Seq<usize>, i: int)
    requires
        1 <= i < v.len(),
    ensures
        leaf_run_str(v.take(i + 1)) == leaf_run_str(v.take(i)) + seq![','] + dec_str(v[i] as int),
{
    assert(v.take(i + 1).drop_last() =~= v.take(i));
    assert(v.take(i + 1).last() == v[i]);
}

proof fn lemma_node_run_take_succ(vs: Seq<TupleView>, i: int)
    requires
        1 <= i < vs.len(),
    ensures
        node_run_str(vs.take(i + 1)) == node_run_str(vs.take(i)) + seq![','] + tuple_str(vs[i]),
{
    assert(vs.take(i + 1).drop_last() =~= vs.take(i));
    assert(vs.take(i + 1).last() == vs[i]);
}

/// The decimal notation of one digit.
fn digit_string(d: usize) -> (r: String)
    requires
        d < 10,
    ensures
        r@ == seq![dec_digit(d as int)],
{
    let r: String;
    if d == 0 {
        r = String::from_str("0");
        proof {
            reveal_strlit("0");
        }
    } else if d == 1 {
        r = String::from_str("1");
        proof {
            reveal_strlit("1");
        }
    } else if d == 2 {
        r = String::from_str("2");
        proof {
            reveal_strlit("2");
        }
    } else if d == 3 {
        r = String::from_str("3");
        proof {
            reveal_strlit("3");
        }
    } else if d == 4 {
        r = String::from_str("4");
        proof {
            reveal_strlit("4");
        }
    } else if d == 5 {
        r = String::from_str("5");
        proof {
            reveal_strlit("5");
        }
    } else if d == 6 {
        r = String::from_str("6");
        proof {
            reveal_strlit("6");
        }
    } else if d == 7 {
        r = String::from_str("7");
        proof {
            reveal_strlit("7");
        }
    } else if d == 8 {
        r = String::from_str("8");
        proof {
            reveal_strlit("8");
        }
    } else {
        r = String::from_str("9");
        proof {
            reveal_strlit("9");
        }
    }
    proof {
        assert(r@ =~= seq![dec_digit(d as int)]);
    }
    r
}

/// Decimal notation of an integer.
pub(crate) fn dec_string(n: usize) -> (r: String)
    ensures
        r@ == dec_str(n as int),
    decreases n,
{
    if n < 10 {
        digit_string(n)
    } else {
        proof {
            lemma_div_pos_is_pos(n as int, 10);
            lemma_div_is_strictly_smaller(n as int, 10);
        }
        let mut s = dec_string(n / 10);
        let d = digit_string(n % 10);
        s.append(d.as_str());
        proof {
            assert(s@ =~= dec_str((n / 10) as int).push(dec_digit((n % 10) as int)));
        }
        s
    }
}

impl Tuple {
    /// Canonical nested-parenthesis notation of the tuple.
    pub fn to_string(&self) -> (r: String)
        ensures
            r@ == tuple_str(self@),
        decreases *self,
    {
        match self {
            Tuple::Int(v) => {
                if v.len() == 1 {
                    dec_string(v[0])
                } else {
                    let mut s = String::from_str("(");
                    proof {
                        reveal_strlit("(");
                        reveal_strlit(",");
                        reveal_strlit(")");
                        assert(s@ =~= seq!['(']);
                        assert(v@.take(0) =~= Seq::<usize>::empty());
                    }
                    let mut i: usize = 0;
                    while i < v.len()
                        invariant
                            *self == Tuple::Int(*v),
                            v@.len() != 1,
                            0 <= i <= v.len(),
                            s@ == seq!['('] + leaf_run_str(v@.take(i as int)),
                        decreases v.len() - i,
                    {
                        if i > 0 {
                            let c = String::from_str(",");
                            proof {
                                reveal_strlit(",");
                            }
                            s.append(c.as_str());
                        }
                        let piece = dec_string(v[i]);
                        s.append(piece.as_str());
                        proof {
                            if i > 0 {
                                lemma_leaf_run_take_succ(v@, i as int);
                                assert(s@ =~= seq!['('] + leaf_run_str(v@.take(i + 1)));
                            } else {
                                assert(v@.take(1).len() == 1);
                                assert(v@.take(1)[0] == v@[0]);
                                assert(s@ =~= seq!['('] + leaf_run_str(v@.take(1)));
                            }
                        }
                        i = i + 1;
                    }
                    let c = String::from_str(")");
                    proof {
                        reveal_strlit(")");
                    }
                    s.append(c.as_str());
                    proof {
                        assert(v@.take(v@.len() as int) =~= v@);
                        assert(s@ =~= seq!['('] + leaf_run_str(v@) + seq![')']);
                    }
                    s
                }
            }
            Tuple::Tup(vs) => {
                proof {
                    lemma_node_views_len(vs@);
                }
                if vs.len() == 1 {
                    proof {
                        assert(decreases_to!(*self => self->Tup_0));
                        assert(self->Tup_0 == *vs);
                        assert(decreases_to!(*vs => vs@));
                        assert(decreases_to!(vs@ => vs@[0]));
                        assert(decreases_to!(*self => vs@[0]));
                        lemma_node_views_index(vs@, 0);
                    }
                    vs[0].to_string()
                } else {
                    let mut s = String::from_str("(");
                    proof {
                        reveal_strlit("(");
                        assert(s@ =~= seq!['(']);
                        assert(node_views(vs@).take(0) =~= Seq::<TupleView>::empty());
                    }
                    let mut i: usize = 0;
                    while i < vs.len()
                        invariant
                            *self == Tuple::Tup(*vs),
                            node_views(vs@).len() == vs@.len(),
                            vs@.len() != 1,
                            0 <= i <= vs.len(),
                            s@ == seq!['('] + node_run_str(node_views(vs@).take(i as int)),
                        decreases vs.len() - i,
                    {
                        proof {
                            assert(decreases_to!(*self => self->Tup_0));
                            assert(self->Tup_0 == *vs);
                            assert(decreases_to!(*vs => vs@));
                            assert(decreases_to!(vs@ => vs@[i as int]));
                            assert(decreases_to!(*self => vs@[i as int]));
                            lemma_node_views_index(vs@, i as int);
                        }
                        if i > 0 {
                            let c = String::from_str(",");
                            proof {
                                reveal_strlit(",");
                            }
                            s.append(c.as_str());
                        }
                        let piece = vs[i].to_string();
                        s.append(piece.as_str());
                        proof {
                            if i > 0 {
                                lemma_node_run_take_succ(node_views(vs@), i as int);
                                assert(s@ =~= seq!['(']
                                    + node_run_str(node_views(vs@).take(i + 1)));
                            } else {
                                assert(node_views(vs@).take(1).len() == 1);
                                assert(node_views(vs@).take(1)[0] == node_views(vs@)[0]);
                                assert(s@ =~= seq!['('] + node_run_str(node_views(vs@).take(1)));
                            }
                        }
                        i = i + 1;
                    }
                    let c = String::from_str(")");
                    proof {
                        reveal_strlit(")");
                    }
                    s.append(c.as_str());
                    proof {
                        assert(node_views(vs@).take(vs@.len() as int) =~= node_views(vs@));
                        assert(s@ =~= seq!['('] + node_run_str(node_views(vs@)) + seq![')']);
                    }
                    s
                }
            }
        }
    }
}

} // verus!
