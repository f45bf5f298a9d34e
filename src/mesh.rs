use vstd::prelude::*;

verus! {

/// Position in a grid triangle list of corner `k` (`0..6`) of the quad at `(row, col)`.
pub open spec fn quad_slot(cols: int, row: int, col: int, k: int) -> int {
    6 * (row * (cols - 1) + col) + k
}

/// Vertex index of corner `k` of the quad at `(row, col)` in a grid with `cols` columns:
/// the quad is split into `(tl, bl, tr)` and `(tr, bl, br)`.
pub open spec fn quad_corner(cols: int, row: int, col: int, k: int) -> int {
    let tl = row * cols + col;
    if k == 0 {
        tl
    } else if k == 1 {
        tl + cols
    } else if k == 2 {
        tl + 1
    } else if k == 3 {
        tl + 1
    } else if k == 4 {
        tl + cols
    } else {
        tl + cols + 1
    }
}

/// The triangle list `t` with the order of the corners of every triangle reversed.
pub open spec fn winding_reversed(t: Seq<u32>) -> Seq<u32> {
    Seq::new(t.len(), |i: int| t[i - i % 3 + 2 - i % 3])
}

/// Reversing the winding of a triangle list twice gives the list back.
pub proof fn lemma_winding_reversed_twice(t: Seq<u32>)
    requires
        t.len() % 3 == 0,
    ensures
        winding_reversed(winding_reversed(t)) == t,
{
    assert(winding_reversed(winding_reversed(t)) =~= t);
}

/// A triangle list over `n` vertices: whole triangles, each index naming a vertex.
pub open spec fn valid_triangles(t: Seq<u32>, n: nat) -> bool {
    &&& t.len() % 3 == 0
    &&& forall|i: int| 0 <= i < t.len() ==> (#[trigger] t[i] as int) < n
}

/// An indexed triangle mesh. Vertices and normals are carried as they are; the
/// triangles are a flat list of vertex indices, three per triangle.
#[derive(Clone, Debug)]
pub struct TriangleMesh<P> {
    pub vertices: Vec<P>,
    pub normals: Vec<P>,
    /// Indices of points forming triangle list
    pub triangles: Vec<u32>,
}

impl<P> TriangleMesh<P> {
    /// Whole triangles over existing vertices, and one normal per vertex or none.
    pub open spec fn wf(&self) -> bool {
        &&& valid_triangles(self.triangles@, self.vertices@.len())
        &&& (self.normals@.len() == 0 || self.normals@.len() == self.vertices@.len())
    }

    pub fn new() -> (r: TriangleMesh<P>)
        ensures
            r.vertices@.len() == 0,
            r.normals@.len() == 0,
            r.triangles@.len() == 0,
            r.wf(),
    {
        TriangleMesh { vertices: Vec::new(), normals: Vec::new(), triangles: Vec::new() }
    }

    pub fn triangle_count(&self) -> (r: usize)
        ensures
            r == self.triangles@.len() / 3,
    {
        self.triangles.len() / 3
    }

    /// Flips every triangle `(a, b, c)` to `(c, b, a)`, keeping vertices and normals.
    pub fn reverse_winding_direction(self) -> (r: TriangleMesh<P>)
        requires
            self.triangles@.len() % 3 == 0,
        ensures
            r.vertices@ == self.vertices@,
            r.normals@ == self.normals@,
            r.triangles@ == winding_reversed(self.triangles@),
            self.wf() ==> r.wf(),
    {
        let old_triangles = self.triangles;
        let n = old_triangles.len();
        let mut triangles: Vec<u32> = Vec::new();
        let mut i: usize = 0;
        while i < n
            invariant
                n == old_triangles@.len(),
                n % 3 == 0,
                i % 3 == 0,
                i <= n,
                triangles@ =~= winding_reversed(old_triangles@).subrange(0, i as int),
            decreases n - i,
        {
            triangles.push(old_triangles[i + 2]);
            triangles.push(old_triangles[i + 1]);
            triangles.push(old_triangles[i]);
            i = i + 3;
        }
        let r = TriangleMesh { vertices: self.vertices, normals: self.normals, triangles };
        proof {
            if self.wf() {
                assert forall|j: int| 0 <= j < r.triangles@.len() implies (#[trigger] r.triangles@[j]
                    as int) < r.vertices@.len() by {
                    let s = j - j % 3 + 2 - j % 3;
                    assert(0 <= s < n);
                    assert(r.triangles@[j] == old_triangles@[s]);
                }
            }
        }
        r
    }
}

proof fn lemma_earlier_slot(cols: int, rr: int, cc: int, k: int, row: int, col: int)
    requires
        cols >= 1,
        0 <= rr,
        0 <= cc < cols - 1,
        0 <= col,
        0 <= k < 6,
        rr < row || (rr == row && cc < col),
    ensures
        0 <= quad_slot(cols, rr, cc, k) < 6 * (row * (cols - 1) + col),
{
    assert(0 <= rr * (cols - 1)) by (nonlinear_arith)
        requires
            0 <= rr,
            cols >= 1,
    ;
    if rr < row {
        assert(rr * (cols - 1) + cc < row * (cols - 1)) by (nonlinear_arith)
            requires
                rr < row,
                0 <= cc < cols - 1,
        ;
    }
}

/// Stitches a sample grid of `rows` x `cols` points, stored row by row, into a
/// triangle list of two triangles per grid cell.
pub fn create_triangles(rows: usize, cols: usize) -> (r: Vec<u32>)
    requires
        rows >= 1,
        cols >= 1,
        rows * cols <= u32::MAX as int + 1,
    ensures
        r@.len() == 6 * (rows - 1) * (cols - 1),
        forall|row: int, col: int, k: int|
            0 <= row < rows - 1 && 0 <= col < cols - 1 && 0 <= k < 6 ==> #[trigger] r@[quad_slot(
                cols as int,
                row,
                col,
                k,
            )] as int == quad_corner(cols as int, row, col, k),
        valid_triangles(r@, (rows * cols) as nat),
{
    let mut triangles: Vec<u32> = Vec::new();
    let mut row: usize = 0;
    while row < rows - 1
        invariant
            rows >= 1,
            cols >= 1,
            rows * cols <= u32::MAX as int + 1,
            row <= rows - 1,
            triangles@.len() == 6 * (row * (cols - 1)),
            forall|rr: int, cc: int, k: int|
                0 <= rr < row && 0 <= cc < cols - 1 && 0 <= k < 6 ==> #[trigger] triangles@[quad_slot(
                    cols as int,
                    rr,
                    cc,
                    k,
                )] as int == quad_corner(cols as int, rr, cc, k),
            forall|i: int| 0 <= i < triangles@.len() ==> (#[trigger] triangles@[i] as int) < rows * cols,
        decreases rows - 1 - row,
    {
        let mut col: usize = 0;
        while col < cols - 1
            invariant
                rows >= 1,
                cols >= 1,
                rows * cols <= u32::MAX as int + 1,
                row < rows - 1,
                col <= cols - 1,
                triangles@.len() == 6 * (row * (cols - 1) + col),
                forall|rr: int, cc: int, k: int|
                    0 <= rr && 0 <= cc < cols - 1 && 0 <= k < 6 && (rr < row || (rr == row && cc
                        < col)) ==> #[trigger] triangles@[quad_slot(cols as int, rr, cc, k)] as int
                        == quad_corner(cols as int, rr, cc, k),
                forall|i: int|
                    0 <= i < triangles@.len() ==> (#[trigger] triangles@[i] as int) < rows * cols,
            decreases cols - 1 - col,
        {
            proof {
                assert((row + 1) * cols + col + 1 < rows * cols) by (nonlinear_arith)
                    requires
                        row + 1 <= rows - 1,
                        col + 1 <= cols - 1,
                ;
                assert(row * cols <= (row + 1) * cols) by (nonlinear_arith)
                    requires
                        cols >= 1,
                ;
            }
            let tl = row * cols + col;
            let bl = (row + 1) * cols + col;
            let ghost before = triangles@;
            // first triangle
            triangles.push(tl as u32);
            triangles.push(bl as u32);
            triangles.push((tl + 1) as u32);
            // second triangle
            triangles.push((tl + 1) as u32);
            triangles.push(bl as u32);
            triangles.push((bl + 1) as u32);
            proof {
                assert((row + 1) * cols == row * cols + cols) by (nonlinear_arith);
                assert forall|rr: int, cc: int, k: int|
                    0 <= rr && 0 <= cc < cols - 1 && 0 <= k < 6 && (rr < row || (rr == row && cc
                        <= col)) implies #[trigger] triangles@[quad_slot(cols as int, rr, cc, k)]
                    as int == quad_corner(cols as int, rr, cc, k) by {
                    if rr < row || cc < col {
                        lemma_earlier_slot(cols as int, rr, cc, k, row as int, col as int);
                        assert(triangles@[quad_slot(cols as int, rr, cc, k)] == before[quad_slot(
                            cols as int,
                            rr,
                            cc,
                            k,
                        )]);
                    } else {
                        assert(quad_slot(cols as int, rr, cc, k) == before.len() + k);
                    }
                }
            }
            col = col + 1;
        }
        proof {
            assert(6 * (row * (cols - 1) + (cols - 1)) == 6 * ((row + 1) * (cols - 1)))
                by (nonlinear_arith);
        }
        row = row + 1;
    }
    proof {
        assert(6 * ((rows - 1) * (cols - 1)) == 6 * (rows - 1) * (cols - 1)) by (nonlinear_arith);
        assert(triangles@.len() % 3 == 0);
    }
    triangles
}

/// `t` is the fan of `n` triangles `(n, i, i + 1)` round a centre vertex `n`, the
/// last one closing back to vertex 0.
pub open spec fn is_fan(t: Seq<u32>, n: int) -> bool {
    &&& t.len() == 3 * n
    &&& forall|i: int|
        0 <= i < n ==> {
            &&& #[trigger] t[3 * i] == n as u32
            &&& t[3 * i + 1] == i as u32
            &&& t[3 * i + 2] == (if i + 1 == n { 0 } else { i + 1 }) as u32
        }
}

/// Triangulates a convex polygon of `n` vertices as a fan around an extra centre
/// vertex `n`: triangle `i` is `(n, i, i + 1)`, the last one closing back to vertex 0.
pub fn fan_triangles(n: usize) -> (r: Vec<u32>)
    requires
        1 <= n <= u32::MAX,
    ensures
        is_fan(r@, n as int),
        valid_triangles(r@, (n + 1) as nat),
{
    let mut triangles: Vec<u32> = Vec::new();
    let mut i: usize = 0;
    while i < n
        invariant
            1 <= n <= u32::MAX,
            i <= n,
            triangles@.len() == 3 * i,
            forall|j: int|
                0 <= j < i ==> {
                    &&& #[trigger] triangles@[3 * j] == n as u32
                    &&& triangles@[3 * j + 1] == j as u32
                    &&& triangles@[3 * j + 2] == (if j + 1 == n { 0 } else { j + 1 }) as u32
                },
            forall|j: int| 0 <= j < triangles@.len() ==> (#[trigger] triangles@[j] as int) <= n,
        decreases n - i,
    {
        let next = if i + 1 == n {
            0
        } else {
            i + 1
        };
        let ghost before = triangles@;
        triangles.push(n as u32);
        triangles.push(i as u32);
        triangles.push(next as u32);
        proof {
            assert forall|j: int| 0 <= j < i + 1 implies {
                &&& #[trigger] triangles@[3 * j] == n as u32
                &&& triangles@[3 * j + 1] == j as u32
                &&& triangles@[3 * j + 2] == (if j + 1 == n { 0 } else { j + 1 }) as u32
            } by {
                if j < i {
                    assert(triangles@[3 * j] == before[3 * j]);
                    assert(triangles@[3 * j + 1] == before[3 * j + 1]);
                    assert(triangles@[3 * j + 2] == before[3 * j + 2]);
                }
            }
        }
        i = i + 1;
    }
    triangles
}

/// Flat indices of the grid neighbours of the point at flat index `i` in a grid
/// with `rows` rows and `cols` columns: above, below, left, right, where present.
pub open spec fn neighbor_seq(i: int, rows: int, cols: int) -> Seq<usize> {
    (if i / cols > 0 { seq![(i - cols) as usize] } else { Seq::<usize>::empty() }) + (if i / cols + 1
        < rows { seq![(i + cols) as usize] } else { Seq::<usize>::empty() }) + (if i % cols > 0 {
        seq![(i - 1) as usize]
    } else {
        Seq::<usize>::empty()
    }) + (if i % cols + 1 < cols { seq![(i + 1) as usize] } else { Seq::<usize>::empty() })
}

/// Flat indices of the grid neighbours of the point at flat index `i` in a grid of
/// `rows` x `cols` points stored row by row, in the order above, below, left, right;
/// neighbours outside the grid are left out.
pub fn grid_neighbors(i: usize, rows: usize, cols: usize) -> (r: Vec<usize>)
    requires
        cols >= 1,
        i < rows * cols,
        rows * cols <= usize::MAX,
    ensures
        r@ == neighbor_seq(i as int, rows as int, cols as int),
        forall|j: int| 0 <= j < r@.len() ==> (#[trigger] r@[j] as int) < rows * cols,
{
    let row = i / cols;
    let col = i % cols;
    proof {
        vstd::arithmetic::div_mod::lemma_fundamental_div_mod(i as int, cols as int);
        if row + 1 < rows {
            assert(cols * (row + 1) + col < rows * cols) by (nonlinear_arith)
                requires
                    row + 1 < rows,
                    col < cols,
                    cols >= 1,
            ;
        }
        if row > 0 {
            assert(cols * row >= cols) by (nonlinear_arith)
                requires
                    row >= 1,
                    cols >= 1,
            ;
        }
        assert(cols * (row + 1) == cols * row + cols) by (nonlinear_arith);
        assert(row < rows) by {
            if row >= rows {
                assert(cols * row >= rows * cols) by (nonlinear_arith)
                    requires
                        row >= rows,
                        cols >= 1,
                ;
            }
        }
        assert(cols * row + cols <= rows * cols) by (nonlinear_arith)
            requires
                row < rows,
                cols >= 1,
        ;
    }
    let mut r: Vec<usize> = Vec::new();
    if row > 0 {
        r.push(i - cols);
    }
    if row + 1 < rows {
        r.push(i + cols);
    }
    if col > 0 {
        r.push(i - 1);
    }
    if col + 1 < cols {
        r.push(i + 1);
    }
    proof {
        let up = if i / cols > 0 { seq![(i - cols) as usize] } else { Seq::<usize>::empty() };
        let down = if i / cols + 1 < rows { seq![(i + cols) as usize] } else { Seq::<usize>::empty() };
        let left = if i % cols > 0 { seq![(i - 1) as usize] } else { Seq::<usize>::empty() };
        let right = if i % cols + 1 < cols { seq![(i + 1) as usize] } else { Seq::<usize>::empty() };
        assert(r@ =~= up + down + left + right);
    }
    r
}

/// `f` tells of any value whether it is missing, the same way each time.
pub open spec fn is_missing_fn<P, F: Fn(P) -> bool>(f: F) -> bool {
    &&& forall|a: P| #[trigger] f.requires((a,))
    &&& forall|a: P, x: bool, y: bool|
        #[trigger] f.ensures((a,), x) && #[trigger] f.ensures((a,), y) ==> x == y
}

/// Whether `f` finds `a` missing.
pub open spec fn missing_of<P, F: Fn(P) -> bool>(f: F, a: P) -> bool {
    f.ensures((a,), true)
}

/// The first of the positions `ks` whose value in `s` is not missing.
pub open spec fn first_present<P, F: Fn(P) -> bool>(f: F, s: Seq<P>, ks: Seq<usize>) -> Option<
    usize,
>
    decreases ks.len(),
{
    if ks.len() == 0 {
        None
    } else if !missing_of(f, s[ks[0] as int]) {
        Some(ks[0])
    } else {
        first_present(f, s, ks.drop_first())
    }
}

/// The grid values `s` once the first `i` of them have been filled in turn: a
/// missing value takes the value of its first grid neighbour, in the order of
/// `neighbor_seq`, that is not missing at that moment.
pub open spec fn filled<P, F: Fn(P) -> bool>(f: F, s: Seq<P>, rows: int, cols: int, i: int) -> Seq<P>
    decreases i,
{
    if i <= 0 {
        s
    } else {
        let t = filled(f, s, rows, cols, i - 1);
        if missing_of(f, t[i - 1]) {
            match first_present(f, t, neighbor_seq(i - 1, rows, cols)) {
                Some(k) => t.update(i - 1, t[k as int]),
                None => t,
            }
        } else {
            t
        }
    }
}

proof fn lemma_missing_call<P, F: Fn(P) -> bool>(f: F, a: P, x: bool)
    requires
        is_missing_fn(f),
        f.ensures((a,), x),
    ensures
        missing_of(f, a) == x,
{
    if missing_of(f, a) {
        assert(f.ensures((a,), true));
    }
}

proof fn lemma_first_present_in<P, F: Fn(P) -> bool>(f: F, s: Seq<P>, ks: Seq<usize>)
    ensures
        first_present(f, s, ks) matches Some(k) ==> ks.contains(k),
    decreases ks.len(),
{
    if ks.len() > 0 && missing_of(f, s[ks[0] as int]) {
        lemma_first_present_in(f, s, ks.drop_first());
        match first_present(f, s, ks.drop_first()) {
            Some(k) => {
                let j = choose|j: int| 0 <= j < ks.drop_first().len() && ks.drop_first()[j] == k;
                assert(ks[j + 1] == k);
            },
            None => {},
        }
    } else if ks.len() > 0 {
        assert(ks[0] == ks[0]);
    }
}

/// The first of the positions `ks` whose value in `values` is not missing.
fn find_present<P: Copy, F: Fn(P) -> bool>(values: &Vec<P>, ks: &Vec<usize>, missing: &F) -> (r:
    Option<usize>)
    requires
        is_missing_fn(*missing),
        forall|j: int| 0 <= j < ks@.len() ==> (#[trigger] ks@[j] as int) < values@.len(),
    ensures
        r == first_present(*missing, values@, ks@),
{
    let mut j: usize = 0;
    proof {
        assert(ks@.subrange(0, ks@.len() as int) =~= ks@);
    }
    while j < ks.len()
        invariant
            j <= ks@.len(),
            is_missing_fn(*missing),
            forall|t: int| 0 <= t < ks@.len() ==> (#[trigger] ks@[t] as int) < values@.len(),
            first_present(*missing, values@, ks@) == first_present(
                *missing,
                values@,
                ks@.subrange(j as int, ks@.len() as int),
            ),
        decreases ks@.len() - j,
    {
        let k = ks[j];
        let m = missing(values[k]);
        proof {
            lemma_missing_call(*missing, values@[k as int], m);
            let rest = ks@.subrange(j as int, ks@.len() as int);
            assert(rest[0] == k);
            assert(rest.drop_first() =~= ks@.subrange(j + 1, ks@.len() as int));
        }
        if !m {
            return Some(k);
        }
        j = j + 1;
    }
    proof {
        assert(ks@.subrange(j as int, ks@.len() as int).len() == 0);
    }
    None
}

/// Fills the missing values of a grid of `rows` x `cols` values stored row by row,
/// in order: each missing value takes the value of its first grid neighbour (above,
/// below, left, right) that is not missing at that moment, and stays missing where
/// there is none.
pub fn fill_missing<P: Copy, F: Fn(P) -> bool>(
    values: &mut Vec<P>,
    rows: usize,
    cols: usize,
    missing: &F,
)
    requires
        cols >= 1,
        old(values)@.len() == rows * cols,
        is_missing_fn(*missing),
    ensures
        final(values)@ == filled(*missing, old(values)@, rows as int, cols as int, rows * cols),
{
    let ghost s = values@;
    let n = values.len();
    let mut i: usize = 0;
    while i < n
        invariant
            cols >= 1,
            n == rows * cols,
            i <= n,
            is_missing_fn(*missing),
            values@ == filled(*missing, s, rows as int, cols as int, i as int),
            values@.len() == n,
        decreases n - i,
    {
        let m = missing(values[i]);
        proof {
            lemma_missing_call(*missing, values@[i as int], m);
        }
        if m {
            let neighbors = grid_neighbors(i, rows, cols);
            match find_present(values, &neighbors, missing) {
                Some(k) => {
                    proof {
                        lemma_first_present_in(*missing, values@, neighbors@);
                    }
                    let v = values[k];
                    values[i] = v;
                },
                None => {},
            }
        }
        i = i + 1;
    }
}

} // verus!
