use rutilelib::tuple::Tuple;

#[test]
fn tuple_single_int() {
    let t = Tuple::int1(5);
    assert_eq!(t.size(), 5);
    assert_eq!(t.depth(), 0);
    assert_eq!(t.to_string(), "5");
    assert_eq!(t.len(), 1);
    assert_eq!(t.get(0), Tuple::int1(5));
}

#[test]
fn tuple_vec_int() {
    let t = Tuple::ints(vec![2, 3, 4]);
    assert_eq!(t.size(), 24);
    assert_eq!(t.depth(), 0);
    assert_eq!(t.to_string(), "(2,3,4)");
    assert_eq!(t.len(), 3);
    assert_eq!(t.get(1), Tuple::int1(3));
}

#[test]
fn tuple_nested() {
    let t = Tuple::tup(vec![
        Tuple::int1(2),
        Tuple::tup(vec![Tuple::int1(3), Tuple::int1(4)]),
    ]);
    assert_eq!(t.size(), 2 * 3 * 4);
    assert_eq!(t.depth(), 2);
    assert_eq!(t.to_string(), "(2,(3,4))");
    assert_eq!(t.len(), 2);
    assert_eq!(t.get(1).to_string(), "(3,4)");
}

#[test]
fn tuple_iter_flat() {
    let t = Tuple::tup(vec![Tuple::ints(vec![2, 3]), Tuple::ints(vec![4, 5])]);
    let elems: Vec<usize> = t.iter_flat();
    assert_eq!(elems, vec![2, 3, 4, 5]);
}

#[test]
fn tuple_dot_hierarchical() {
    let a = Tuple::tup(vec![Tuple::ints(vec![1, 2]), Tuple::int1(3)]);
    let b = Tuple::tup(vec![Tuple::ints(vec![4, 5]), Tuple::int1(6)]);
    assert_eq!(a.dot(&b), 1 * 4 + 2 * 5 + 3 * 6);
}

#[test]
fn tuple_concat_and_arith() {
    let a = Tuple::tup(vec![Tuple::int1(2), Tuple::int1(3)]);
    let b = Tuple::tup(vec![Tuple::int1(4)]);
    let c = Tuple::concat(&a, &b);
    assert_eq!(c.to_string(), "(2,3,4)");
    assert_eq!(c.flat_len(), 3);
    assert_eq!(c.flat_at(2), 4);
    assert_eq!(c.product(), 24);
    let q = Tuple::ints(vec![8, 6]).div_exact(&Tuple::ints(vec![2, 3]));
    assert_eq!(q, Tuple::ints(vec![4, 2]));
    let m = Tuple::ints(vec![8, 7]).mod_exact(&Tuple::ints(vec![3, 7]));
    assert_eq!(m, Tuple::ints(vec![2, 0]));
}

#[test]
fn tuple_empty_run_prints_parens() {
    let t = Tuple::ints(vec![]);
    assert_eq!(t.to_string(), "()");
    assert_eq!(Tuple::ints(vec![1203]).to_string(), "1203");
    assert_eq!(Tuple::int1(0).to_string(), "0");
}
