use geom3d::meshgen::{advance_front, generate_triangular_mesh};
use std::collections::VecDeque;

type P = (f64, f64);

fn sub(a: P, b: P) -> P {
    (a.0 - b.0, a.1 - b.1)
}

fn perp_dot(a: P, b: P) -> f64 {
    a.0 * b.1 - a.1 * b.0
}

fn length_squared(a: P) -> f64 {
    a.0 * a.0 + a.1 * a.1
}

fn bisector_point(a: P, b: P, ratio: f64) -> P {
    let center = ((a.0 + b.0) / 2.0, (a.1 + b.1) / 2.0);
    let d = sub(b, a);
    let mut displace = (-d.1, d.0);
    let len = length_squared(displace).sqrt();
    if len < 0.001 {
        displace = (displace.0 / len * 0.01, displace.1 / len * 0.01);
    }
    (center.0 + displace.0 * ratio, center.1 + displace.1 * ratio)
}

fn inside(p: P, a: P, b: P, c: P) -> bool {
    let (pa, pb, pc) = (sub(a, p), sub(b, p), sub(c, p));
    let near = |x: f64| x.abs() <= 1.0e-7;
    let (pab, pbc, pca) = (perp_dot(pa, pb), perp_dot(pb, pc), perp_dot(pc, pa));
    (pab >= 0.0 || near(pab)) && (pbc >= 0.0 || near(pbc)) && (pca >= 0.0 || near(pca))
}

fn intersect(a: P, b: P, c: P, d: P) -> bool {
    if a.0.min(b.0) > c.0.max(d.0)
        || c.0.min(d.0) > a.0.max(b.0)
        || a.1.min(b.1) > c.1.max(d.1)
        || c.1.min(d.1) > a.1.max(b.1)
    {
        return false;
    }
    let (ac, bc, ad, bd) = (sub(c, a), sub(c, b), sub(d, a), sub(d, b));
    !(perp_dot(ac, ad) * perp_dot(bd, bc) < 0.0 || perp_dot(ac, bc) * perp_dot(bd, ad) < 0.0)
}

fn shape(a: P, b: P, c: P) -> f64 {
    let (ab, ac, bc) = (sub(b, a), sub(c, a), sub(c, b));
    perp_dot(ab, ac) / (length_squared(ab) + length_squared(ac) + length_squared(bc))
}

fn find_node(
    start: usize,
    end: usize,
    selected: Option<usize>,
    front: &VecDeque<(usize, usize)>,
    vertices: &Vec<P>,
) -> Option<usize> {
    let (a, b) = (vertices[start], vertices[end]);
    let new_point = match selected {
        Some(node) => vertices[node],
        None => bisector_point(a, b, 1.0),
    };
    let mut nodes = front
        .iter()
        .filter_map(|e| {
            if selected == Some(e.0) {
                return None;
            }
            if e.0 != start && e.0 != end && inside(vertices[e.0], a, b, new_point) {
                return Some((e.0, 1.0 + shape(a, b, vertices[e.0])));
            }
            if selected == Some(e.1) {
                return None;
            }
            let (c, d) = (vertices[e.0], vertices[e.1]);
            let (fc, fd) = (shape(a, b, c), shape(a, b, d));
            if e.0 != start && e.1 != start && intersect(a, new_point, c, d) {
                return if e.0 == end || fc <= fd { Some((e.1, fd)) } else { Some((e.0, fc)) };
            }
            if e.0 != end && e.1 != end && intersect(b, new_point, c, d) {
                return if e.1 == start || fc > fd { Some((e.0, fc)) } else { Some((e.1, fd)) };
            }
            None
        })
        .collect::<Vec<_>>();
    nodes.sort_by(|x, y| match x.0.cmp(&y.0) {
        std::cmp::Ordering::Equal => y.1.partial_cmp(&x.1).unwrap_or(std::cmp::Ordering::Less),
        order => order,
    });
    nodes.dedup_by_key(|(node, _)| *node);
    if nodes.len() > 1 {
        nodes.sort_by(|x, y| x.1.partial_cmp(&y.1).unwrap_or(std::cmp::Ordering::Less));
    }
    nodes.pop().map(|(node, _)| node)
}

fn apex(a: P, b: P) -> P {
    bisector_point(a, b, 1.7320508075689 / 2.0)
}

#[test]
fn advancing_front_seed() {
    let points = vec![
        (0.0, 0.2),
        (-0.5, 0.0),
        (0.0, 0.0),
        (1.0, 0.0),
        (2.0, 0.0),
        (2.0, 1.0),
        (1.0, 1.0),
        (0.0, 1.0),
        (-0.5, 1.0),
        (0.0, 0.8),
    ];
    let (vertices, triangles, complete, steps) =
        generate_triangular_mesh(&points, &vec![0, points.len()], &find_node, &apex, 100_000);
    assert!(steps < 100_000);
    assert!(complete);
    assert!(triangles.iter().any(|&t| t as usize >= points.len()), "Steiner point unused");
    assert_eq!(&vertices[..points.len()], &points[..]);
    assert!(vertices.len() > points.len(), "no Steiner point");
    assert_eq!(triangles.len() % 3, 0);
    assert!(!triangles.is_empty());
    assert!(triangles.iter().all(|&t| (t as usize) < vertices.len()));
}

#[test]
fn advancing_front_on_a_triangle() {
    let points = vec![(0.0, 0.0), (1.0, 0.0), (0.0, 1.0)];
    let (vertices, triangles, complete, steps) =
        generate_triangular_mesh(&points, &vec![0, 3], &find_node, &apex, 1000);
    assert!(steps >= 1);
    assert!(complete);
    assert_eq!(vertices, points);
    assert_eq!(triangles.len(), 3);
    let mut corners = triangles.clone();
    corners.sort();
    assert_eq!(corners, vec![0, 1, 2]);
}

#[test]
fn advancing_front_stops_after_budget() {
    let points = vec![(0.0, 0.0), (1.0, 0.0), (0.0, 1.0)];
    let (vertices, triangles, complete, steps) =
        generate_triangular_mesh(&points, &vec![0, 3], &find_node, &apex, 0);
    assert_eq!(steps, 0);
    assert!(!complete);
    assert_eq!(vertices, points);
    assert!(triangles.is_empty());
}

#[test]
fn front_step_with_new_apex() {
    let mut front: VecDeque<(usize, usize)> = vec![(0, 1), (1, 2)].into();
    let t = advance_front(&mut front, (2, 0), None, 3);
    assert_eq!(t, (2, 0, 3));
    assert_eq!(front, vec![(3, 0), (2, 3), (0, 1), (1, 2)]);
}

#[test]
fn front_step_with_existing_apex() {
    // closing the triangle (2, 0, 1) cancels both remaining edges
    let mut front: VecDeque<(usize, usize)> = vec![(0, 1), (1, 2)].into();
    let t = advance_front(&mut front, (2, 0), Some(1), 3);
    assert_eq!(t, (2, 0, 1));
    assert!(front.is_empty());
}
