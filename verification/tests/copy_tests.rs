use rutilelib::copy::{tensor_copy, enumerate_coords};
use rutilelib::layout::{Layout, RowMajor};
use rutilelib::shape::Shape;
use rutilelib::tensor::Tensor;
use rutilelib::tuple::Tuple;

#[test]
fn test_copy_tensor_to_tensor() {
    let shape = Shape::new(Tuple::tup(vec![
        Tuple::ints(vec![2]),
        Tuple::ints(vec![2]),
    ]));
    let t1 = Tensor::new(vec![1, 2, 3, 4], Layout::new::<RowMajor>(shape.clone()));
    let mut t2 = Tensor::new(vec![0; 4], Layout::new::<RowMajor>(shape.clone()));
    let src = t1.as_view();
    let dst = t2.as_view_mut();
    tensor_copy(&t1, &src, &mut t2, &dst);
    for i in 0..4 {
        assert_eq!(t2.data()[i], t1.data()[i]);
    }
}

#[test]
fn copy_hierarchical_contiguous() {
    let shape = Shape::new(Tuple::tup(vec![
        Tuple::ints(vec![2, 3]),
        Tuple::ints(vec![4]),
    ]));
    let stride = Tuple::tup(vec![
        Tuple::ints(vec![12, 4]),
        Tuple::ints(vec![1]),
    ]);
    let layout = Layout::with_shape_stride(shape.clone(), stride);
    let src_data: Vec<i32> = (0..24).collect();
    let dst_data = vec![0; 24];
    let src_t = Tensor::new(src_data.clone(), layout.clone());
    let mut dst_t = Tensor::new(dst_data, layout);
    let src = src_t.as_view();
    let dst = dst_t.as_view_mut();
    tensor_copy(&src_t, &src, &mut dst_t, &dst);
    for i in 0..24 {
        assert_eq!(dst_t.data()[i], src_t.data()[i]);
    }
}

#[test]
fn enumerate_coords_row_major_order() {
    let shape = Tuple::ints(vec![2, 3]);
    let coords = enumerate_coords(&shape);
    assert_eq!(coords.len(), 6);
    assert_eq!(coords[0], vec![0, 0]);
    assert_eq!(coords[1], vec![0, 1]);
    assert_eq!(coords[2], vec![0, 2]);
    assert_eq!(coords[3], vec![1, 0]);
    assert_eq!(coords[5], vec![1, 2]);
}

#[test]
fn copy_between_different_stride_orders() {
    // row-major source into a column-major destination, elementwise
    let shape = Shape::new(Tuple::ints(vec![2, 3]));
    let src_t2 = Tensor::new(
        (0..6).collect::<Vec<i32>>(),
        Layout::row_major(shape.clone()),
    );
    let mut dst_t2 = Tensor::new(vec![0; 6], Layout::col_major(shape));
    let src = src_t2.as_view();
    let dst = dst_t2.as_view_mut();
    tensor_copy(&src_t2, &src, &mut dst_t2, &dst);
    // element (i,j) = i*3+j lands at column-major position j*2+i
    assert_eq!(dst_t2.data(), &vec![0, 3, 1, 4, 2, 5]);
}
