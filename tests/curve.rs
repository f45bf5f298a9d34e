use geom3d::curve::BezierCurve;
use geom3d::knot::knots_from_multiplicities;

fn scaled_difference(a: [f64; 3], b: [f64; 3], n: usize) -> [f64; 3] {
    let n = n as f64;
    [(b[0] - a[0]) * n, (b[1] - a[1]) * n, (b[2] - a[2]) * n]
}

#[test]
fn bezier_degree() {
    let curve = BezierCurve { control_points: vec![[0.0; 3], [1.0, 0.0, 0.0], [1.0, 1.0, 0.0]] };
    assert_eq!(curve.degree(), 2);
}

#[test]
fn bezier_derivative_control_points() {
    let curve = BezierCurve {
        control_points: vec![[0.0, 0.0, 0.0], [1.0, 2.0, 0.0], [3.0, 2.0, 1.0], [4.0, 0.0, 1.0]],
    };
    let derivative = curve.derivative(scaled_difference);
    assert_eq!(derivative.degree(), 2);
    assert_eq!(
        derivative.control_points,
        vec![[3.0, 6.0, 0.0], [6.0, 0.0, 3.0], [3.0, -6.0, 0.0]]
    );
    let second = derivative.derivative(scaled_difference);
    assert_eq!(second.control_points, vec![[6.0, -12.0, 6.0], [-6.0, -12.0, -6.0]]);
}

#[test]
fn bezier_derivative_of_a_point_is_empty() {
    let curve = BezierCurve { control_points: vec![[1.0, 2.0, 3.0]] };
    assert_eq!(curve.degree(), 0);
    assert!(curve.derivative(scaled_difference).control_points.is_empty());
}

#[test]
fn knots_with_multiplicities() {
    let knots = knots_from_multiplicities(&vec![2.802464183, 3.859874137], &vec![2, 2]);
    assert_eq!(knots, vec![2.802464183, 2.802464183, 3.859874137, 3.859874137]);
    let knots = knots_from_multiplicities(&vec![0.0, 0.5, 1.0], &vec![3, 1, 3]);
    assert_eq!(knots, vec![0.0, 0.0, 0.0, 0.5, 1.0, 1.0, 1.0]);
    let knots = knots_from_multiplicities(&vec![0.0, 1.0], &vec![1, 0, 4]);
    assert_eq!(knots, vec![0.0]);
}
