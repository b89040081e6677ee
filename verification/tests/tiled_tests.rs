use rutilelib::layout::Layout;
use rutilelib::shape::Shape;
use rutilelib::tensor::Tensor;
use rutilelib::tiled_tensor::{TiledTensorView, TiledTensorViewMut};
use rutilelib::tuple::Tuple;

fn make_tensor_2d(m: usize, n: usize) -> Tensor<f32> {
    let data: Vec<f32> = (0..m * n).map(|x| x as f32).collect();
    let shape = Shape::new(Tuple::ints(vec![m, n]));
    Tensor::new(data, Layout::row_major(shape))
}

#[test]
fn tile_iter_covers_entire_tensor() {
    let m = 8;
    let n = 6;
    let tile = vec![3, 4];
    let t = make_tensor_2d(m, n);
    let tiler = Layout::row_major(Shape::new(Tuple::ints(tile.clone())));
    let mut tiled = TiledTensorView::new(t.as_view(), tiler);
    let mut visited = vec![false; m * n];
    while let Some((tile_desc, tile_view)) = tiled.tiles() {
        for i in 0..tile_desc.len(0) {
            for j in 0..tile_desc.len(1) {
                let gi = tile_desc.start(0) + i;
                let gj = tile_desc.start(1) + j;
                let idx = gi * n + gj;
                assert!(!visited[idx], "Element visited twice");
                visited[idx] = true;
                let v = *tile_view.get(&t, &Tuple::ints(vec![i, j]));
                assert_eq!(v, idx as f32);
            }
        }
    }
    assert!(
        visited.iter().all(|x| *x),
        "Not all elements were covered by tiles"
    );
}

#[test]
fn tile_shapes_are_correct_at_edges() {
    let m = 7;
    let n = 5;
    let tile = vec![4, 3];
    let t = make_tensor_2d(m, n);
    let tiler = Layout::row_major(Shape::new(Tuple::ints(tile.clone())));
    let mut tiled = TiledTensorView::new(t.as_view(), tiler);
    while let Some((tile_desc, _)) = tiled.tiles() {
        let tm = tile_desc.len(0);
        let tn = tile_desc.len(1);
        assert!(tm <= tile[0]);
        assert!(tn <= tile[1]);
        assert!(tile_desc.start(0) + tm <= m);
        assert!(tile_desc.start(1) + tn <= n);
    }
}

#[test]
fn tiled_mutation_updates_base_tensor() {
    let m = 6;
    let n = 6;
    let tile = vec![2, 3];
    let mut t = make_tensor_2d(m, n);
    let tiler = Layout::row_major(Shape::new(Tuple::ints(tile.clone())));
    let mut tiled = TiledTensorViewMut::new(t.as_view_mut(), tiler);
    while let Some((tile_desc, tile_view)) = tiled.tiles_mut() {
        let tile_offset = tile_desc.start(0) * n + tile_desc.start(1);
        for i in 0..tile_desc.len(0) {
            for j in 0..tile_desc.len(1) {
                tile_view.write(&mut t, &Tuple::ints(vec![i, j]), (tile_offset + (i * n + j)) as f32);
            }
        }
    }
    for (i, v) in t.data().iter().enumerate() {
        assert_eq!(*v, i as f32);
    }
}

#[test]
fn single_tile_equals_whole_tensor() {
    let m = 4;
    let n = 4;
    let t = make_tensor_2d(m, n);
    let tiler = Layout::row_major(Shape::new(Tuple::ints(vec![m, n])));
    let mut tiled = TiledTensorView::new(t.as_view(), tiler);
    let mut tiles = Vec::new();
    while let Some(pair) = tiled.tiles() {
        tiles.push(pair);
    }
    assert_eq!(tiles.len(), 1);
    let (tile, view) = &tiles[0];
    assert_eq!(tile.start, vec![0, 0]);
    assert_eq!(tile.len, vec![m, n]);
    for i in 0..m {
        for j in 0..n {
            let idx = i * n + j;
            let v = *view.get(&t, &Tuple::ints(vec![i, j]));
            assert_eq!(v, idx as f32);
        }
    }
}

#[test]
fn tiling_writes_every_cell_once() {
    // writing row*N + col into an 8x6 buffer exclusively through
    // ragged 3x4 tile sub-views reproduces direct flat assignment
    let m = 8;
    let n = 6;
    let mut t = Tensor::new(
        vec![0usize; m * n],
        Layout::row_major(Shape::new(Tuple::ints(vec![m, n]))),
    );
    let tiler = Layout::row_major(Shape::new(Tuple::ints(vec![3, 4])));
    let mut tiled = TiledTensorViewMut::new(t.as_view_mut(), tiler);
    while let Some((tile_desc, tile_view)) = tiled.tiles_mut() {
        for i in 0..tile_desc.len(0) {
            for j in 0..tile_desc.len(1) {
                let row = tile_desc.start(0) + i;
                let col = tile_desc.start(1) + j;
                tile_view.write(&mut t, &Tuple::ints(vec![i, j]), row * n + col);
            }
        }
    }
    let expected: Vec<usize> = (0..m * n).collect();
    assert_eq!(t.data(), &expected);
}
