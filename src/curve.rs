use vstd::prelude::*;

verus! {

/// A Bezier curve given by its control points; its degree is one less than
/// the number of control points.
#[derive(Debug)]
pub struct BezierCurve<P> {
    pub control_points: Vec<P>,
}

impl<P> BezierCurve<P> {
    pub open spec fn spec_degree(&self) -> int {
        self.control_points@.len() - 1
    }

    pub fn degree(&self) -> (r: usize)
        requires
            self.control_points@.len() >= 1,
        ensures
            r == self.spec_degree(),
    {
        self.control_points.len() - 1
    }
}

impl<P: Copy> BezierCurve<P> {
    /// The derivative of a Bezier curve of degree `n` is the Bezier curve of degree
    /// `n - 1` whose control points are `n * (P[i+1] - P[i])`. The vector arithmetic
    /// is `scaled_difference(P[i], P[i+1], n)`.
    pub fn derivative<F: Fn(P, P, usize) -> P>(&self, scaled_difference: F) -> (r: BezierCurve<P>)
        requires
            self.control_points@.len() >= 1,
            forall|a: P, b: P, n: usize| scaled_difference.requires((a, b, n)),
        ensures
            r.control_points@.len() == self.control_points@.len() - 1,
            forall|i: int|
                0 <= i < r.control_points@.len() ==> scaled_difference.ensures(
                    (self.control_points@[i], self.control_points@[i + 1], self.spec_degree() as usize),
                    #[trigger] r.control_points@[i],
                ),
    {
        let n = self.degree();
        let mut control_points: Vec<P> = Vec::new();
        let mut i: usize = 0;
        while i < n
            invariant
                n == self.spec_degree(),
                i <= n,
                control_points@.len() == i,
                forall|a: P, b: P, m: usize| scaled_difference.requires((a, b, m)),
                forall|j: int|
                    0 <= j < i ==> scaled_difference.ensures(
                        (self.control_points@[j], self.control_points@[j + 1], n),
                        #[trigger] control_points@[j],
                    ),
            decreases n - i,
        {
            let d = scaled_difference(self.control_points[i], self.control_points[i + 1], n);
            control_points.push(d);
            i = i + 1;
        }
        BezierCurve { control_points }
    }
}

} // verus!
