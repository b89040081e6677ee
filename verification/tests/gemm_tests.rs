use rutilelib::gemm::{lower_matrix, try_lower_matrix, lower_gemm, BlasTranspose};
use rutilelib::layout::Layout;
use rutilelib::shape::Shape;
use rutilelib::tuple::Tuple;

#[test]
fn row_major_operand_lowers_without_transpose() {
    let a = Layout::row_major(Shape::new(Tuple::ints(vec![4, 3])));
    let (lda, ta) = lower_matrix(&a);
    assert_eq!(lda, 3);
    assert_eq!(ta, BlasTranspose::NoTrans);
}

#[test]
fn col_major_operand_lowers_with_transpose() {
    let a = Layout::col_major(Shape::new(Tuple::ints(vec![4, 3])));
    let (lda, ta) = lower_matrix(&a);
    assert_eq!(lda, 4);
    assert_eq!(ta, BlasTranspose::Trans);
}

#[test]
fn gapped_layout_is_rejected() {
    let gapped = Layout::with_shape_stride(
        Shape::new(Tuple::ints(vec![2, 2])),
        Tuple::ints(vec![4, 2]),
    );
    assert!(try_lower_matrix(&gapped).is_none());
    let dense = Layout::row_major(Shape::new(Tuple::ints(vec![2, 2])));
    assert_eq!(
        try_lower_matrix(&dense),
        Some((2, BlasTranspose::NoTrans))
    );
}

#[test]
fn dense_triple_lowers_to_backend_call() {
    let m = 5;
    let k = 7;
    let n = 4;
    let a = Layout::row_major(Shape::new(Tuple::ints(vec![m, k])));
    let b = Layout::row_major(Shape::new(Tuple::ints(vec![k, n])));
    let c = Layout::row_major(Shape::new(Tuple::ints(vec![m, n])));
    let low = lower_gemm(&a, &b, &c);
    assert_eq!(low.m, m as i32);
    assert_eq!(low.k, k as i32);
    assert_eq!(low.n, n as i32);
    assert_eq!(low.lda, k as i32);
    assert_eq!(low.ldb, n as i32);
    assert_eq!(low.ldc, n as i32);
    assert_eq!(low.ta, BlasTranspose::NoTrans);
    assert_eq!(low.tb, BlasTranspose::NoTrans);
}
