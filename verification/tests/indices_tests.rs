use rutilelib::indices::{Indices, IndicesDyn};

#[test]
fn test_static_indices() {
    let idx = Indices::<3>::new([1, 2, 3]);
    assert_eq!(idx.rank(), 3);
    let dyn_idx = idx.to_dyn();
    assert_eq!(dyn_idx.values, vec![1, 2, 3]);
}

#[test]
fn test_dynamic_indices() {
    let idx = IndicesDyn::new(vec![4, 5]);
    assert_eq!(idx.rank(), 2);
}

#[test]
fn indices_zero_is_origin() {
    let z = Indices::<4>::zero();
    assert_eq!(z.values, [0, 0, 0, 0]);
    let zd = IndicesDyn::zero(3);
    assert_eq!(zd.values, vec![0, 0, 0]);
}
