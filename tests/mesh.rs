use geom3d::mesh::{create_triangles, fan_triangles, fill_missing, grid_neighbors, TriangleMesh};

#[test]
fn grid_of_two_by_two_gives_two_triangles() {
    assert_eq!(create_triangles(2, 2), vec![0, 2, 1, 1, 2, 3]);
}

#[test]
fn grid_indices_in_range_and_counted() {
    let (rows, cols) = (4usize, 5usize);
    let triangles = create_triangles(rows, cols);
    assert_eq!(triangles.len(), 6 * (rows - 1) * (cols - 1));
    assert!(triangles.iter().all(|&t| (t as usize) < rows * cols));
    // second quad of the second row
    let q = 6 * (1 * (cols - 1) + 1);
    assert_eq!(&triangles[q..q + 6], &[6, 11, 7, 7, 11, 12]);
}

#[test]
fn grid_with_single_row_has_no_triangles() {
    assert!(create_triangles(1, 7).is_empty());
    assert!(create_triangles(7, 1).is_empty());
}

#[test]
fn teapot_patch_count() {
    // 32 patches of 17 x 17 samples
    let per_patch = create_triangles(17, 17).len() / 3;
    assert_eq!(32 * per_patch, 16384);
}

#[test]
fn reverse_winding_flips_each_triangle() {
    let mesh = TriangleMesh {
        vertices: vec![[0.0, 0.0, 0.0], [1.0, 0.0, 0.0], [0.0, 1.0, 0.0], [1.0, 1.0, 0.0]],
        normals: Vec::new(),
        triangles: vec![0, 1, 2, 1, 3, 2],
    };
    assert_eq!(mesh.triangle_count(), 2);
    let reversed = mesh.reverse_winding_direction();
    assert_eq!(reversed.triangles, vec![2, 1, 0, 2, 3, 1]);
    assert_eq!(reversed.vertices.len(), 4);
    let back = reversed.reverse_winding_direction();
    assert_eq!(back.triangles, vec![0, 1, 2, 1, 3, 2]);
}

#[test]
fn new_mesh_is_empty() {
    let mesh: TriangleMesh<[f64; 3]> = TriangleMesh::new();
    assert!(mesh.vertices.is_empty());
    assert!(mesh.normals.is_empty());
    assert_eq!(mesh.triangle_count(), 0);
}

#[test]
fn fan_closes_back_to_first_vertex() {
    assert_eq!(fan_triangles(4), vec![4, 0, 1, 4, 1, 2, 4, 2, 3, 4, 3, 0]);
    assert_eq!(fan_triangles(1), vec![1, 0, 0]);
}

#[test]
fn neighbors_inside_and_on_edges() {
    // 3 x 4 grid
    assert_eq!(grid_neighbors(5, 3, 4), vec![1, 9, 4, 6]);
    assert_eq!(grid_neighbors(0, 3, 4), vec![4, 1]);
    assert_eq!(grid_neighbors(11, 3, 4), vec![7, 10]);
    assert_eq!(grid_neighbors(0, 1, 1), Vec::<usize>::new());
}

fn same(a: &[f64], b: &[f64]) -> bool {
    a.len() == b.len() && a.iter().zip(b).all(|(x, y)| x == y || (x.is_nan() && y.is_nan()))
}

#[test]
fn missing_normals_borrow_from_neighbors() {
    let nan = f64::NAN;
    let is_nan = |x: f64| x.is_nan();
    let mut values = vec![nan, 1.0, 2.0, 3.0, nan, nan];
    fill_missing(&mut values, 2, 3, &is_nan);
    assert!(same(&values, &[3.0, 1.0, 2.0, 3.0, 1.0, 2.0]));

    // a value filled earlier is available to later ones
    let mut values = vec![1.0, nan, nan];
    fill_missing(&mut values, 1, 3, &is_nan);
    assert!(same(&values, &[1.0, 1.0, 1.0]));

    // with no neighbour to borrow from the value stays missing
    let mut values = vec![nan, nan];
    fill_missing(&mut values, 1, 2, &is_nan);
    assert!(same(&values, &[nan, nan]));
}
