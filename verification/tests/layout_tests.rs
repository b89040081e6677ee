use rutilelib::layout::{Layout, RowMajor, is_layout_contig};
use rutilelib::shape::Shape;
use rutilelib::tuple::Tuple;

#[test]
fn row_major_roundtrip() {
    let shape = Shape::new(Tuple::tup(vec![
        Tuple::ints(vec![2]),
        Tuple::ints(vec![3]),
    ]));
    let layout = Layout::new::<RowMajor>(shape);
    for i in 0..6 {
        let crd = layout.idx2crd(i);
        let idx = layout.crd2idx(&crd);
        assert_eq!(i, idx);
    }
}

#[test]
fn hierarchical_stride_correct() {
    let shape = Shape::new(Tuple::tup(vec![
        Tuple::ints(vec![2]),
        Tuple::tup(vec![Tuple::ints(vec![3]), Tuple::ints(vec![4])]),
    ]));
    let layout = Layout::new::<RowMajor>(shape);
    assert_eq!(layout.stride().to_string(), "(12,(4,1))");
}

#[test]
fn col_major_stride_correct() {
    let shape = Shape::new(Tuple::ints(vec![2, 3, 4]));
    let layout = Layout::col_major(shape);
    assert_eq!(layout.stride().to_string(), "(1,2,6)");
    assert!(layout.is_contiguous());
}

#[test]
fn row_major_dense_is_contiguous() {
    let layout = Layout::row_major(Shape::new(Tuple::ints(vec![4, 5])));
    assert!(layout.is_contiguous());
    assert!(is_layout_contig(layout.shape(), layout.stride()));
}

#[test]
fn inherited_outer_stride_is_not_contiguous() {
    // a 2x2 window cut from a wider buffer keeps the parent's stride
    let sub = Layout::with_shape_stride(
        Shape::new(Tuple::ints(vec![2, 2])),
        Tuple::ints(vec![4, 1]),
    );
    assert!(!sub.is_contiguous());
    // the full-width window with the same strides is dense again
    let full = Layout::with_shape_stride(
        Shape::new(Tuple::ints(vec![2, 4])),
        Tuple::ints(vec![4, 1]),
    );
    assert!(full.is_contiguous());
}

#[test]
fn cosize_of_dense_and_gapped_layouts() {
    let dense = Layout::row_major(Shape::new(Tuple::ints(vec![3, 4])));
    assert_eq!(dense.cosize(), 12);
    assert_eq!(dense.size(), 12);
    let gapped = Layout::with_shape_stride(
        Shape::new(Tuple::ints(vec![2, 2])),
        Tuple::ints(vec![4, 1]),
    );
    assert_eq!(gapped.cosize(), 6);
    assert_eq!(gapped.size(), 4);
}

#[test]
fn layout_rank_and_size() {
    let layout = Layout::row_major(Shape::new(Tuple::tup(vec![
        Tuple::ints(vec![2]),
        Tuple::tup(vec![Tuple::ints(vec![3]), Tuple::ints(vec![4])]),
    ])));
    assert_eq!(layout.rank(), 2);
    assert_eq!(layout.size(), 24);
}
