use rutilelib::layout::{Layout, RowMajor};
use rutilelib::shape::Shape;
use rutilelib::tensor::Tensor;
use rutilelib::tuple::Tuple;

#[test]
fn tensor_create_and_view() {
    let shape = Shape::new(Tuple::tup(vec![
        Tuple::ints(vec![2]),
        Tuple::ints(vec![3]),
    ]));
    let layout = Layout::new::<RowMajor>(shape);
    let data = (0..6).collect::<Vec<i32>>();
    let t = Tensor::new(data, layout);
    let v = t.as_view();
    assert_eq!(v.layout().shape().size(), 6);
}

#[test]
fn tensorview_subview_2d() {
    let shape = Shape::new(Tuple::tup(vec![
        Tuple::ints(vec![4]),
        Tuple::ints(vec![4]),
    ]));
    let layout = Layout::new::<RowMajor>(shape);
    let data = (0..16).collect::<Vec<i32>>();
    let t = Tensor::new(data, layout);
    let v = t.as_view();
    let sub = v.subview_2d(1, 1, 2, 2);
    assert_eq!(sub.layout().shape().size(), 4);
    assert_eq!(sub.layout().shape().to_string(), "(2,2)");
}

#[test]
fn tensorview_nd_subview() {
    let shape = Shape::new(Tuple::tup(vec![
        Tuple::ints(vec![2]),
        Tuple::ints(vec![3]),
        Tuple::ints(vec![4]),
    ]));
    let layout = Layout::new::<RowMajor>(shape);
    let data = (0..24).collect::<Vec<i32>>();
    let t = Tensor::new(data, layout);
    let v = t.as_view();
    let start = Tuple::tup(vec![
        Tuple::ints(vec![1]),
        Tuple::ints(vec![1]),
        Tuple::ints(vec![1]),
    ]);
    let subshape = Shape::new(Tuple::tup(vec![
        Tuple::ints(vec![1]),
        Tuple::ints(vec![2]),
        Tuple::ints(vec![3]),
    ]));
    let sub = v.subview(&start, &subshape);
    assert_eq!(sub.layout().shape().size(), 6);
}

#[test]
fn tensorview_mut_write() {
    let shape = Shape::new(Tuple::tup(vec![
        Tuple::ints(vec![3]),
        Tuple::ints(vec![3]),
    ]));
    let layout = Layout::new::<RowMajor>(shape);
    let mut t = Tensor::new(vec![0i32; 9], layout);
    let v = t.as_view_mut();
    let sub = v.subview_2d_mut(1, 1, 1, 1);
    let origin = Tuple::tup(vec![Tuple::ints(vec![0]), Tuple::ints(vec![0])]);
    sub.write(&mut t, &origin, 42);
    let full = t.as_view();
    let val = full.get(
        &t,
        &Tuple::tup(vec![Tuple::ints(vec![1]), Tuple::ints(vec![1])]),
    );
    assert_eq!(*val, 42);
}

#[test]
fn subview_reads_through_parent_offset() {
    let layout = Layout::row_major(Shape::new(Tuple::tup(vec![
        Tuple::ints(vec![4]),
        Tuple::ints(vec![4]),
    ])));
    let data = (0..16).collect::<Vec<i32>>();
    let t = Tensor::new(data, layout);
    let v = t.as_view();
    let sub = v.subview_2d(1, 2, 2, 2);
    // element (0,0) of the window is global (1,2), flat index 6
    let at = |i: usize, j: usize| Tuple::tup(vec![Tuple::ints(vec![i]), Tuple::ints(vec![j])]);
    let val = sub.get(&t, &at(0, 0));
    assert_eq!(*val, 6);
    let val = sub.get(&t, &at(1, 1));
    assert_eq!(*val, 11);
}
