use rutilelib::stride::{Stride, StrideDyn};

#[test]
fn test_static_stride() {
    let s: Stride<3> = Stride::new([1, 2, 6]);
    assert_eq!(s.rank(), 3);
    assert_eq!(s.size(), 12);
    let dyn_stride = s.to_dynamic();
    assert_eq!(dyn_stride.strides, vec![1, 2, 6]);
}

#[test]
fn test_dynamic_stride() {
    let d = StrideDyn::new(vec![1, 2, 6]);
    assert_eq!(d.rank(), 3);
    assert_eq!(d.size(), 12);
}
