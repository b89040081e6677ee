use rutilelib::layout::{Layout, RowMajor};
use rutilelib::shape::Shape;
use rutilelib::tuple::Tuple;

#[test]
fn test_tile_iter_2d() {
    let layout = Layout::new::<RowMajor>(Shape::new(Tuple::ints(vec![8, 6])));
    let tiler = Layout::row_major(Shape::new(Tuple::ints(vec![3, 2])));
    let mut tiles = Vec::new();
    let mut it = layout.tile_iter(&tiler);
    while let Some(idx) = it.next() {
        tiles.push(idx.clone());
    }
    assert_eq!(tiles.len(), 6);
    assert_eq!(tiles[0], vec![0, 0]);
    assert_eq!(tiles[1], vec![0, 2]);
    assert_eq!(tiles[2], vec![0, 4]);
    assert_eq!(tiles[3], vec![3, 0]);
    assert_eq!(tiles[4], vec![3, 2]);
    assert_eq!(tiles[5], vec![3, 4]);
}

#[test]
fn test_rest_iter_2d() {
    let layout = Layout::new::<RowMajor>(Shape::new(Tuple::ints(vec![8, 6])));
    let tiler = Layout::row_major(Shape::new(Tuple::ints(vec![3, 2])));
    let mut rests = Vec::new();
    let mut it = layout.rest_iter(&tiler);
    while let Some(idx) = it.next() {
        rests.push(idx.clone());
    }
    assert_eq!(rests.len(), 1);
    assert_eq!(rests[0], vec![6, 0]);
}

#[test]
fn test_tile_iter_3d() {
    let layout = Layout::new::<RowMajor>(Shape::new(Tuple::ints(vec![4, 6, 8])));
    let tiler = Layout::row_major(Shape::new(Tuple::ints(vec![2, 3, 4])));
    let mut tiles = Vec::new();
    let mut it = layout.tile_iter(&tiler);
    while let Some(idx) = it.next() {
        tiles.push(idx.clone());
    }
    assert_eq!(tiles.len(), 8);
    assert_eq!(tiles[0], vec![0, 0, 0]);
    assert_eq!(tiles[7], vec![2, 3, 4]);
}

#[test]
fn test_rest_iter_3d() {
    let layout = Layout::new::<RowMajor>(Shape::new(Tuple::ints(vec![4, 6, 8])));
    let tiler = Layout::row_major(Shape::new(Tuple::ints(vec![3, 4, 5])));
    let mut rests = Vec::new();
    let mut it = layout.rest_iter(&tiler);
    while let Some(idx) = it.next() {
        rests.push(idx.clone());
    }
    assert_eq!(rests.len(), 1);
    assert_eq!(rests[0], vec![3, 4, 5]);
}

#[test]
fn rest_iter_empty_when_divides_evenly() {
    let layout = Layout::row_major(Shape::new(Tuple::ints(vec![8, 6])));
    let tiler = Layout::row_major(Shape::new(Tuple::ints(vec![4, 3])));
    let mut it = layout.rest_iter(&tiler);
    assert!(it.next().is_none());
}
