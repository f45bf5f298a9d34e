use geom3d::meshgen::{add_front_side, initial_front};
use geom3d::polygon::{
    close_polygon, compute_vertex_convexity, find_concave_vertices, is_ear, merge_two_polygons,
    polygon_offsets, triangulate_contour, trianglate_polygon, ContourTriangulation, Convexity,
};

fn perp_dot(a: (f64, f64), b: (f64, f64)) -> f64 {
    a.0 * b.1 - a.1 * b.0
}

fn sub(a: (f64, f64), b: (f64, f64)) -> (f64, f64) {
    (a.0 - b.0, a.1 - b.1)
}

fn turn(points: &[(f64, f64)], a: usize, b: usize, c: usize) -> Convexity {
    let product = perp_dot(sub(points[b], points[a]), sub(points[c], points[b]));
    if product.abs() <= 1.0e-7 {
        Convexity::Colinear
    } else if product > 0.0 {
        Convexity::Convex
    } else {
        Convexity::Concave
    }
}

fn inside(points: &[(f64, f64)], a: usize, b: usize, c: usize, p: usize) -> bool {
    let (a, b, c, p) = (points[a], points[b], points[c], points[p]);
    perp_dot(sub(a, p), sub(b, p)) >= 0.0
        && perp_dot(sub(b, p), sub(c, p)) >= 0.0
        && perp_dot(sub(c, p), sub(a, p)) >= 0.0
}

fn signed_area(points: &[(f64, f64)], a: u32, b: u32, c: u32) -> f64 {
    let (a, b, c) = (points[a as usize], points[b as usize], points[c as usize]);
    perp_dot(sub(b, a), sub(c, a)) / 2.0
}

fn l_shape() -> Vec<(f64, f64)> {
    vec![(0.0, 0.0), (2.0, 0.0), (2.0, 1.0), (1.0, 1.0), (1.0, 2.0), (0.0, 2.0)]
}

#[test]
fn l_shape_convexity() {
    let points = l_shape();
    let (vertices, concave) = compute_vertex_convexity(points.len(), &|a, b, c| turn(&points, a, b, c));
    assert_eq!(vertices, vec![0, 1, 2, 3, 4, 5]);
    assert_eq!(concave, vec![3]);
}

#[test]
fn colinear_vertex_is_dropped() {
    let points = vec![(0.0, 0.0), (1.0, 0.0), (2.0, 0.0), (2.0, 2.0), (0.0, 2.0)];
    let (vertices, concave) = compute_vertex_convexity(points.len(), &|a, b, c| turn(&points, a, b, c));
    assert_eq!(vertices, vec![0, 2, 3, 4]);
    assert!(concave.is_empty());
}

#[test]
fn clockwise_polygon_is_all_concave() {
    let mut points = l_shape();
    points.reverse();
    let (vertices, concave) = compute_vertex_convexity(points.len(), &|a, b, c| turn(&points, a, b, c));
    assert_ne!(vertices.len(), 0);
    assert_eq!(vertices.len(), 6);
    assert_eq!(concave.len(), 5);
}

#[test]
fn ear_test_against_concave_vertex() {
    let points = l_shape();
    let ins = |a: usize, b: usize, c: usize, p: usize| inside(&points, a, b, c, p);
    let concave = vec![3];
    assert!(is_ear(&concave, 0, 1, 2, &ins));
    assert!(!is_ear(&concave, 5, 0, 1, &ins));
    // the concave vertex itself as a neighbour does not count
    assert!(is_ear(&concave, 3, 4, 5, &ins));
}

#[test]
fn l_shape_triangulation() {
    let points = l_shape();
    let conv = |a: usize, b: usize, c: usize| turn(&points, a, b, c);
    let ins = |a: usize, b: usize, c: usize, p: usize| inside(&points, a, b, c, p);
    let (vertices, concave) = compute_vertex_convexity(points.len(), &conv);
    let triangles = trianglate_polygon(vertices, concave, &conv, &ins);
    assert_eq!(triangles.len(), 12);
    let mut area = 0.0;
    for t in triangles.chunks(3) {
        let a = signed_area(&points, t[0], t[1], t[2]);
        assert!(a > 0.0);
        area += a;
    }
    assert!((area - 3.0).abs() < 1.0e-12);
}

#[test]
fn convex_polygon_triangulation() {
    let points = vec![(0.0, 0.0), (1.0, 0.0), (2.0, 1.0), (1.0, 2.0), (0.0, 1.0)];
    let conv = |a: usize, b: usize, c: usize| turn(&points, a, b, c);
    let ins = |a: usize, b: usize, c: usize, p: usize| inside(&points, a, b, c, p);
    let (vertices, concave) = compute_vertex_convexity(points.len(), &conv);
    let triangles = trianglate_polygon(vertices, concave, &conv, &ins);
    assert_eq!(triangles.len(), 3 * (points.len() - 2));
}

#[test]
fn triangle_is_returned_as_is() {
    let points = vec![(0.0, 0.0), (1.0, 0.0), (0.0, 1.0)];
    let conv = |a: usize, b: usize, c: usize| turn(&points, a, b, c);
    let ins = |a: usize, b: usize, c: usize, p: usize| inside(&points, a, b, c, p);
    assert_eq!(trianglate_polygon(vec![0, 1, 2], vec![], &conv, &ins), vec![0, 1, 2]);
    assert!(trianglate_polygon(vec![0, 1], vec![], &conv, &ins).is_empty());
}

#[test]
fn square_with_hole_triangulation() {
    // outer square counter-clockwise, inner square clockwise
    let points = vec![
        (0.0, 0.0),
        (4.0, 0.0),
        (4.0, 4.0),
        (0.0, 4.0),
        (1.0, 1.0),
        (1.0, 3.0),
        (3.0, 3.0),
        (3.0, 1.0),
    ];
    let mut vertices = vec![0, 1, 2, 3];
    // hole vertex with maximum x is 6; the nearest outer edge starts at 1
    merge_two_polygons(&mut vertices, 4, 8, 6, 1);
    assert_eq!(vertices, vec![0, 1, 6, 7, 4, 5, 6, 1, 2, 3]);
    let conv = |a: usize, b: usize, c: usize| turn(&points, a, b, c);
    let ins = |a: usize, b: usize, c: usize, p: usize| inside(&points, a, b, c, p);
    let concave = find_concave_vertices(&mut vertices, &conv);
    assert_eq!(vertices.len(), 10);
    let triangles = trianglate_polygon(vertices, concave, &conv, &ins);
    assert_eq!(triangles.len() % 3, 0);
    assert!(triangles.len() <= 3 * 8);
    let mut area = 0.0;
    for t in triangles.chunks(3) {
        area += signed_area(&points, t[0], t[1], t[2]);
    }
    assert!((area - 12.0).abs() < 1.0e-9);
}

#[test]
fn concave_vertices_after_reclassification() {
    let points = vec![(0.0, 0.0), (1.0, 0.0), (2.0, 0.0), (2.0, 1.0), (1.0, 1.0), (1.0, 2.0), (0.0, 2.0)];
    let conv = |a: usize, b: usize, c: usize| turn(&points, a, b, c);
    let mut vertices = vec![0, 1, 2, 3, 4, 5, 6];
    let concave = find_concave_vertices(&mut vertices, &conv);
    assert_eq!(vertices, vec![0, 2, 3, 4, 5, 6]);
    assert_eq!(concave, vec![4]);
}

#[test]
fn bridge_at_last_edge() {
    let mut outer = vec![10, 11, 12];
    merge_two_polygons(&mut outer, 0, 3, 0, 2);
    assert_eq!(outer, vec![10, 11, 12, 0, 1, 2, 0, 12]);
}

#[test]
fn offsets_of_loops() {
    assert_eq!(polygon_offsets(&vec![4, 0, 3]), vec![0, 4, 7]);
    assert_eq!(polygon_offsets(&vec![]), vec![0]);
}

#[test]
fn front_follows_boundary_order() {
    let front = initial_front(&vec![0, 10]);
    assert_eq!(front.len(), 10);
    for (i, edge) in front.iter().enumerate() {
        assert_eq!(*edge, (i, (i + 1) % 10));
    }
    let front = initial_front(&vec![0, 3, 5]);
    assert_eq!(front, vec![(0, 1), (1, 2), (2, 0), (3, 4), (4, 3)]);
}

#[test]
fn single_contour_kinds() {
    let points = l_shape();
    let conv = |a: usize, b: usize, c: usize| turn(&points, a, b, c);
    let ins = |a: usize, b: usize, c: usize, p: usize| inside(&points, a, b, c, p);
    match triangulate_contour(points.len(), &conv, &ins) {
        ContourTriangulation::Ears(t) => assert_eq!(t.len(), 12),
        other => panic!("unexpected {:?}", other),
    }

    let square = vec![(0.0, 0.0), (1.0, 0.0), (1.0, 1.0), (0.0, 1.0)];
    let conv = |a: usize, b: usize, c: usize| turn(&square, a, b, c);
    let ins = |a: usize, b: usize, c: usize, p: usize| inside(&square, a, b, c, p);
    match triangulate_contour(square.len(), &conv, &ins) {
        ContourTriangulation::Fan(t) => assert_eq!(t, vec![4, 0, 1, 4, 1, 2, 4, 2, 3, 4, 3, 0]),
        other => panic!("unexpected {:?}", other),
    }

    let mut clockwise = square.clone();
    clockwise.reverse();
    let conv = |a: usize, b: usize, c: usize| turn(&clockwise, a, b, c);
    let ins = |a: usize, b: usize, c: usize, p: usize| inside(&clockwise, a, b, c, p);
    assert!(matches!(triangulate_contour(clockwise.len(), &conv, &ins), ContourTriangulation::Clockwise));
    assert!(matches!(triangulate_contour(0, &conv, &ins), ContourTriangulation::Clockwise));
}

#[test]
fn front_sides_cancel_or_push() {
    let mut front: std::collections::VecDeque<(usize, usize)> = vec![(0, 1), (1, 2), (2, 0)].into();
    add_front_side(&mut front, 2, 1);
    assert_eq!(front, vec![(0, 1), (2, 0)]);
    add_front_side(&mut front, 5, 6);
    assert_eq!(front, vec![(5, 6), (0, 1), (2, 0)]);
    add_front_side(&mut front, 6, 5);
    assert_eq!(front, vec![(0, 1), (2, 0)]);
}

fn near(a: (f64, f64), b: (f64, f64)) -> bool {
    let d = sub(a, b);
    (d.0 * d.0 + d.1 * d.1).abs() <= 1.0e-7
}

#[test]
fn edge_samples_become_a_closed_polygon() {
    // two edges sharing an end point, the loop returning to its start
    let samples = vec![(0.0, 0.0), (1.0, 0.0), (2.0, 0.0), (2.0, 0.0), (1.0, 1.0), (0.0, 0.0)];
    assert_eq!(close_polygon(samples, &near), vec![(0.0, 0.0), (1.0, 0.0), (2.0, 0.0), (1.0, 1.0)]);
    let runs = vec![(0.0, 0.0), (0.0, 0.0), (0.0, 0.0), (3.0, 0.0), (3.0, 1.0e-9), (0.0, 2.0)];
    assert_eq!(close_polygon(runs, &near), vec![(0.0, 0.0), (3.0, 0.0), (0.0, 2.0)]);
    assert!(close_polygon(vec![(1.0, 1.0)], &near).is_empty());
    assert!(close_polygon(Vec::<(f64, f64)>::new(), &near).is_empty());
}
