use rutilelib::layout::{Layout, RowMajor};
use rutilelib::layout_algebra::{logical_divide, zipped_divide, tiled_divide, flat_divide,
    subtract_tuples, take_tuple, skip_tuple};
use rutilelib::shape::Shape;
use rutilelib::tuple::Tuple;

fn layout_8x6() -> Layout {
    Layout::new::<RowMajor>(Shape::new(Tuple::tup(vec![
        Tuple::ints(vec![8]),
        Tuple::ints(vec![6]),
    ])))
}

fn tiler_2x3() -> Layout {
    Layout::new::<RowMajor>(Shape::new(Tuple::tup(vec![
        Tuple::ints(vec![2]),
        Tuple::ints(vec![3]),
    ])))
}

#[test]
fn test_logical_divide() {
    let result = logical_divide(&layout_8x6(), &tiler_2x3());
    assert_eq!(result.shape().to_string(), "((2,6),(3,3))");
}

#[test]
fn test_zipped_divide() {
    let result = zipped_divide(&layout_8x6(), &tiler_2x3());
    assert_eq!(result.shape().to_string(), "((2,3),(4,2))");
}

#[test]
fn test_tiled_divide() {
    let result = tiled_divide(&layout_8x6(), &tiler_2x3());
    assert_eq!(result.shape().to_string(), "((2,3),4,2)");
}

#[test]
fn test_flat_divide() {
    let result = flat_divide(&layout_8x6(), &tiler_2x3());
    assert_eq!(result.shape().to_string(), "(2,3,4,2)");
}

#[test]
fn flat_divide_exact_fit() {
    let layout = Layout::row_major(Shape::new(Tuple::ints(vec![4, 4])));
    let tiler = Layout::row_major(Shape::new(Tuple::ints(vec![4, 4])));
    let result = flat_divide(&layout, &tiler);
    assert_eq!(result.shape().to_string(), "(4,4,1,1)");
}

#[test]
fn helper_tuple_transforms() {
    let a = Tuple::tup(vec![Tuple::ints(vec![8, 6]), Tuple::int1(5)]);
    let b = Tuple::tup(vec![Tuple::ints(vec![3, 2]), Tuple::int1(1)]);
    let d = subtract_tuples(&a, &b);
    assert_eq!(d.to_string(), "((5,4),4)");
    let t = take_tuple(&a, 1);
    assert_eq!(t.to_string(), "(8,6)");
    let s = skip_tuple(&a, 1);
    assert_eq!(s.to_string(), "5");
    let leaf = Tuple::ints(vec![7, 8, 9]);
    assert_eq!(take_tuple(&leaf, 2).to_string(), "(7,8)");
    assert_eq!(skip_tuple(&leaf, 2).to_string(), "9");
}
