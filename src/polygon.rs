use vstd::prelude::*;
use crate::mesh::{fan_triangles, is_fan};

verus! {

broadcast use vstd::seq_lib::group_seq_properties, vstd::seq_lib::group_filter_ensures;

/// How a polygon turns at a vertex: left (convex, for a counter-clockwise
/// polygon), not at all, or right.
#[derive(Debug, Clone, Copy, PartialEq, Eq, Structural)]
pub enum Convexity {
    Convex,
    Colinear,
    Concave,
}

/// `f` classifies any three vertex indices `(a, b, c)`, the turn at `b`, and
/// gives the same answer for the same three.
pub open spec fn is_convexity_fn<C: Fn(usize, usize, usize) -> Convexity>(f: C) -> bool {
    &&& forall|a: usize, b: usize, c: usize| #[trigger] f.requires((a, b, c))
    &&& forall|a: usize, b: usize, c: usize, x: Convexity, y: Convexity|
        #[trigger] f.ensures((a, b, c), x) && #[trigger] f.ensures((a, b, c), y) ==> x == y
}

/// The classification that `f` gives to the turn `(a, b, c)`.
pub open spec fn convexity_of<C: Fn(usize, usize, usize) -> Convexity>(
    f: C,
    a: usize,
    b: usize,
    c: usize,
) -> Convexity {
    choose|k: Convexity| f.ensures((a, b, c), k)
}

/// `f` answers for any triangle `(a, b, c)` and point `p` whether `p` lies in the
/// triangle, the same way each time.
pub open spec fn is_inside_fn<I: Fn(usize, usize, usize, usize) -> bool>(f: I) -> bool {
    &&& forall|a: usize, b: usize, c: usize, p: usize| #[trigger] f.requires((a, b, c, p))
    &&& forall|a: usize, b: usize, c: usize, p: usize, x: bool, y: bool|
        #[trigger] f.ensures((a, b, c, p), x) && #[trigger] f.ensures((a, b, c, p), y) ==> x == y
}

/// Position before `i` in a cyclic list of length `n`.
pub open spec fn cyclic_prev(n: int, i: int) -> int {
    if i == 0 {
        n - 1
    } else {
        i - 1
    }
}

/// Position after `i` in a cyclic list of length `n`.
pub open spec fn cyclic_next(n: int, i: int) -> int {
    if i + 1 == n {
        0
    } else {
        i + 1
    }
}

/// The turn at vertex `i` of the polygon `0, 1, ..., n - 1`.
pub open spec fn vertex_turn<C: Fn(usize, usize, usize) -> Convexity>(
    f: C,
    n: int,
    i: usize,
) -> Convexity {
    convexity_of(f, cyclic_prev(n, i as int) as usize, i, cyclic_next(n, i as int) as usize)
}

/// Vertices of the polygon `0, 1, ..., n - 1` that turn.
pub open spec fn turns<C: Fn(usize, usize, usize) -> Convexity>(f: C, n: int) -> spec_fn(usize) -> bool {
    |v: usize| vertex_turn(f, n, v) != Convexity::Colinear
}

/// Vertices of the polygon `0, 1, ..., n - 1` that turn right.
pub open spec fn turns_right<C: Fn(usize, usize, usize) -> Convexity>(f: C, n: int) -> spec_fn(
    usize,
) -> bool {
    |v: usize| vertex_turn(f, n, v) == Convexity::Concave
}

/// The indices `0, 1, ..., n - 1`.
pub open spec fn index_seq(n: int) -> Seq<usize> {
    Seq::new(n as nat, |i: int| i as usize)
}

/// The vertices of the contour `0, 1, ..., n - 1` that turn, in order.
pub open spec fn contour_turns<C: Fn(usize, usize, usize) -> Convexity>(f: C, n: int) -> Seq<usize> {
    index_seq(n).filter(turns(f, n))
}

/// The vertices of the contour `0, 1, ..., n - 1` that turn right, in order.
pub open spec fn contour_concave<C: Fn(usize, usize, usize) -> Convexity>(f: C, n: int) -> Seq<
    usize,
> {
    index_seq(n).filter(turns_right(f, n))
}

proof fn lemma_convexity_call<C: Fn(usize, usize, usize) -> Convexity>(
    f: C,
    a: usize,
    b: usize,
    c: usize,
    k: Convexity,
)
    requires
        is_convexity_fn(f),
        f.ensures((a, b, c), k),
    ensures
        convexity_of(f, a, b, c) == k,
{
    let j = convexity_of(f, a, b, c);
    assert(f.ensures((a, b, c), j));
}

/// Classifies every vertex of the polygon `0, 1, ..., n - 1` by the turn it makes
/// between its neighbours. Returns the vertices that are not colinear with their
/// neighbours, and among them the concave ones, both in increasing order.
pub fn compute_vertex_convexity<C: Fn(usize, usize, usize) -> Convexity>(
    n: usize,
    convexity: &C,
) -> (r: (Vec<usize>, Vec<usize>))
    requires
        is_convexity_fn(*convexity),
    ensures
        r.0@ == contour_turns(*convexity, n as int),
        r.1@ == contour_concave(*convexity, n as int),
        r.0@.no_duplicates(),
{
    let ghost live = turns(*convexity, n as int);
    let ghost concave = turns_right(*convexity, n as int);
    let mut vertices: Vec<usize> = Vec::new();
    let mut concave_points: Vec<usize> = Vec::new();
    let mut i: usize = 0;
    while i < n
        invariant
            i <= n,
            is_convexity_fn(*convexity),
            live == turns(*convexity, n as int),
            concave == turns_right(*convexity, n as int),
            vertices@ == index_seq(i as int).filter(live),
            concave_points@ == index_seq(i as int).filter(concave),
            forall|j: int| 0 <= j < vertices@.len() ==> #[trigger] vertices@[j] < i,
            vertices@.no_duplicates(),
        decreases n - i,
    {
        let prev = if i == 0 {
            n - 1
        } else {
            i - 1
        };
        let next = if i + 1 == n {
            0
        } else {
            i + 1
        };
        let k = convexity(prev, i, next);
        proof {
            lemma_convexity_call(*convexity, prev, i, next, k);
            assert(index_seq(i + 1) =~= index_seq(i as int).push(i));
            index_seq(i as int).lemma_filter_push(i, live);
            index_seq(i as int).lemma_filter_push(i, concave);
            assert(vertex_turn(*convexity, n as int, i) == k);
            assert(live(i) == (k != Convexity::Colinear));
            assert(concave(i) == (k == Convexity::Concave));
        }
        match k {
            Convexity::Convex => {
                vertices.push(i);
            },
            Convexity::Concave => {
                vertices.push(i);
                concave_points.push(i);
            },
            Convexity::Colinear => {},
        }
        i = i + 1;
    }
    (vertices, concave_points)
}

/// Whether `curr`, between `prev` and `next`, is an ear: no concave vertex other
/// than `prev` and `next` lies inside the triangle `(prev, curr, next)`.
pub fn is_ear<I: Fn(usize, usize, usize, usize) -> bool>(
    concave_points: &Vec<usize>,
    prev: usize,
    curr: usize,
    next: usize,
    inside: &I,
) -> (r: bool)
    requires
        is_inside_fn(*inside),
    ensures
        r ==> forall|j: int|
            0 <= j < concave_points@.len() && concave_points@[j] != prev && concave_points@[j]
                != next ==> inside.ensures((prev, curr, next, #[trigger] concave_points@[j]), false),
        !r ==> exists|j: int|
            0 <= j < concave_points@.len() && concave_points@[j] != prev && concave_points@[j]
                != next && inside.ensures((prev, curr, next, #[trigger] concave_points@[j]), true),
{
    let mut j: usize = 0;
    while j < concave_points.len()
        invariant
            j <= concave_points@.len(),
            is_inside_fn(*inside),
            forall|t: int|
                0 <= t < j && concave_points@[t] != prev && concave_points@[t] != next
                    ==> inside.ensures((prev, curr, next, #[trigger] concave_points@[t]), false),
        decreases concave_points@.len() - j,
    {
        let other = concave_points[j];
        if other != prev && other != next {
            if inside(prev, curr, next, other) {
                return false;
            }
        }
        j = j + 1;
    }
    true
}

/// The turn at position `i` of the cyclic vertex list `s`.
pub open spec fn turn_at<C: Fn(usize, usize, usize) -> Convexity>(
    f: C,
    s: Seq<usize>,
    i: int,
) -> Convexity {
    convexity_of(f, s[cyclic_prev(s.len() as int, i)], s[i], s[cyclic_next(s.len() as int, i)])
}

/// Positions of `s` at which the polygon turns.
pub open spec fn turning_at<C: Fn(usize, usize, usize) -> Convexity>(
    f: C,
    s: Seq<usize>,
) -> spec_fn(usize) -> bool {
    |i: usize| turn_at(f, s, i as int) != Convexity::Colinear
}

/// Positions of `s` at which the polygon turns right.
pub open spec fn turning_right_at<C: Fn(usize, usize, usize) -> Convexity>(
    f: C,
    s: Seq<usize>,
) -> spec_fn(usize) -> bool {
    |i: usize| turn_at(f, s, i as int) == Convexity::Concave
}

/// The vertices of `s` at the positions that `keep` selects, in order.
pub open spec fn select(s: Seq<usize>, keep: spec_fn(usize) -> bool) -> Seq<usize> {
    index_seq(s.len() as int).filter(keep).map_values(|i: usize| s[i as int])
}

proof fn lemma_select_step(s: Seq<usize>, keep: spec_fn(usize) -> bool, i: int)
    requires
        0 <= i < s.len(),
        s.len() <= usize::MAX,
    ensures
        index_seq(i + 1).filter(keep).map_values(|p: usize| s[p as int]) == if keep(i as usize) {
            index_seq(i).filter(keep).map_values(|p: usize| s[p as int]).push(s[i])
        } else {
            index_seq(i).filter(keep).map_values(|p: usize| s[p as int])
        },
{
    assert(index_seq(i + 1) =~= index_seq(i).push(i as usize));
    index_seq(i).lemma_filter_push(i as usize, keep);
    let a = index_seq(i).filter(keep);
    assert(a.push(i as usize).map_values(|p: usize| s[p as int]) =~= a.map_values(
        |p: usize| s[p as int],
    ).push(s[i]));
}

/// Reclassifies the vertices of the cyclic list `vertices`: removes those that are
/// colinear with their neighbours and returns the concave ones in the order they
/// stand in the list, not sorted; ear clipping only asks whether a vertex is on it.
pub fn find_concave_vertices<C: Fn(usize, usize, usize) -> Convexity>(
    vertices: &mut Vec<usize>,
    convexity: &C,
) -> (r: Vec<usize>)
    requires
        is_convexity_fn(*convexity),
    ensures
        final(vertices)@ == select(old(vertices)@, turning_at(*convexity, old(vertices)@)),
        r@ == select(old(vertices)@, turning_right_at(*convexity, old(vertices)@)),
{
    let ghost s = vertices@;
    let ghost live = turning_at(*convexity, s);
    let ghost concave = turning_right_at(*convexity, s);
    let n = vertices.len();
    let mut kept: Vec<usize> = Vec::new();
    let mut concave_points: Vec<usize> = Vec::new();
    let mut i: usize = 0;
    while i < n
        invariant
            s == vertices@,
            n == s.len(),
            i <= n,
            is_convexity_fn(*convexity),
            live == turning_at(*convexity, s),
            concave == turning_right_at(*convexity, s),
            kept@ == index_seq(i as int).filter(live).map_values(|p: usize| s[p as int]),
            concave_points@ == index_seq(i as int).filter(concave).map_values(
                |p: usize| s[p as int],
            ),
        decreases n - i,
    {
        let prev = if i == 0 {
            n - 1
        } else {
            i - 1
        };
        let next = if i + 1 == n {
            0
        } else {
            i + 1
        };
        let k = convexity(vertices[prev], vertices[i], vertices[next]);
        proof {
            lemma_convexity_call(*convexity, s[prev as int], s[i as int], s[next as int], k);
            lemma_select_step(s, live, i as int);
            lemma_select_step(s, concave, i as int);
            assert(turn_at(*convexity, s, i as int) == k);
        }
        match k {
            Convexity::Convex => {
                kept.push(vertices[i]);
            },
            Convexity::Concave => {
                kept.push(vertices[i]);
                concave_points.push(vertices[i]);
            },
            Convexity::Colinear => {},
        }
        i = i + 1;
    }
    *vertices = kept;
    concave_points
}

/// `x`, or 2 where `x` is smaller.
pub open spec fn at_least_two(x: int) -> int {
    if x < 2 {
        2
    } else {
        x
    }
}

/// Each triangle of the list `t` has three different corners.
pub open spec fn corners_distinct(t: Seq<u32>) -> bool {
    forall|j: int|
        0 <= j < t.len() / 3 ==> #[trigger] t[3 * j] != t[3 * j + 1] && t[3 * j + 1] != t[3 * j + 2]
            && t[3 * j] != t[3 * j + 2]
}

proof fn lemma_push_triangle(t: Seq<u32>, a: u32, b: u32, c: u32)
    requires
        t.len() % 3 == 0,
        corners_distinct(t),
        a != b && b != c && a != c,
    ensures
        corners_distinct(t.push(a).push(b).push(c)),
{
    let u = t.push(a).push(b).push(c);
    assert forall|j: int| 0 <= j < u.len() / 3 implies #[trigger] u[3 * j] != u[3 * j + 1] && u[3 * j
        + 1] != u[3 * j + 2] && u[3 * j] != u[3 * j + 2] by {
        if j < t.len() / 3 {
            assert(u[3 * j] == t[3 * j] && u[3 * j + 1] == t[3 * j + 1] && u[3 * j + 2] == t[3 * j + 2]);
        } else {
            assert(3 * j == t.len());
        }
    }
}


/// Whether `inside` puts `p` in the triangle `(a, b, c)`.
pub open spec fn inside_of<I: Fn(usize, usize, usize, usize) -> bool>(
    inside: I,
    a: usize,
    b: usize,
    c: usize,
    p: usize,
) -> bool {
    inside.ensures((a, b, c, p), true)
}

/// `curr`, between `prev` and `next`, is an ear with respect to the concave
/// vertices `conc`: none of them but `prev` and `next` lies in its triangle.
pub open spec fn is_ear_spec<I: Fn(usize, usize, usize, usize) -> bool>(
    inside: I,
    conc: Seq<usize>,
    prev: usize,
    curr: usize,
    next: usize,
) -> bool {
    forall|j: int|
        0 <= j < conc.len() && conc[j] != prev && conc[j] != next ==> !inside_of(
            inside,
            prev,
            curr,
            next,
            #[trigger] conc[j],
        )
}

/// The first position of `x` in `s`.
pub open spec fn first_index(s: Seq<usize>, x: usize) -> int {
    choose|j: int| 0 <= j < s.len() && s[j] == x && forall|t: int| 0 <= t < j ==> s[t] != x
}

/// The concave list `conc` once the neighbour `v` of a clipped ear, now between `a`
/// and `b`, is looked at again, and whether `v` is to be dropped: a concave `v`
/// that turns convex leaves the list, one that turns colinear is dropped.
pub open spec fn reclassify<C: Fn(usize, usize, usize) -> Convexity>(
    convexity: C,
    conc: Seq<usize>,
    a: usize,
    v: usize,
    b: usize,
) -> (Seq<usize>, bool) {
    if conc.contains(v) {
        match convexity_of(convexity, a, v, b) {
            Convexity::Convex => (conc.remove(first_index(conc, v)), false),
            Convexity::Colinear => (conc, true),
            Convexity::Concave => (conc, false),
        }
    } else {
        (conc, false)
    }
}

/// The positions kept when position `i` goes, and `b` and `c` where asked.
pub open spec fn kept_positions(i: int, drop_b: bool, b: int, drop_c: bool, c: int) -> spec_fn(
    usize,
) -> bool {
    |k: usize| k != i && !(drop_b && k == b) && !(drop_c && k == c)
}

/// One step of a clipping pass at position `i` of the polygon `v` with concave list
/// `conc` and triangles `t`: a vertex off the concave list that is an ear is clipped
/// as the triangle `(prev, curr, next)`, its two neighbours are looked at again, and
/// it leaves the polygon together with any neighbour that turned colinear.
pub open spec fn clip_step<C: Fn(usize, usize, usize) -> Convexity, I: Fn(
    usize,
    usize,
    usize,
    usize,
) -> bool>(
    convexity: C,
    inside: I,
    v: Seq<usize>,
    conc: Seq<usize>,
    t: Seq<u32>,
    i: int,
) -> (Seq<usize>, Seq<usize>, Seq<u32>) {
    let m = v.len() as int;
    let ip = cyclic_prev(m, i);
    let inext = cyclic_next(m, i);
    let prev = v[ip];
    let curr = v[i];
    let next = v[inext];
    if conc.contains(curr) || !is_ear_spec(inside, conc, prev, curr, next) {
        (v, conc, t)
    } else {
        let r1 = reclassify(convexity, conc, v[cyclic_prev(m, ip)], prev, next);
        let r2 = reclassify(convexity, r1.0, prev, next, v[cyclic_next(m, inext)]);
        (
            select(v, kept_positions(i, r1.1, ip, r2.1, inext)),
            r2.0,
            t.push(prev as u32).push(curr as u32).push(next as u32),
        )
    }
}

/// A clipping pass over the polygon from position `i` on, while three vertices or
/// more are left.
pub open spec fn clip_pass<C: Fn(usize, usize, usize) -> Convexity, I: Fn(
    usize,
    usize,
    usize,
    usize,
) -> bool>(
    convexity: C,
    inside: I,
    v: Seq<usize>,
    conc: Seq<usize>,
    t: Seq<u32>,
    i: int,
) -> (Seq<usize>, Seq<usize>, Seq<u32>)
    decreases v.len(), v.len() - i,
{
    if 0 <= i < v.len() && v.len() >= 3 {
        let s = clip_step(convexity, inside, v, conc, t, i);
        clip_pass(convexity, inside, s.0, s.1, s.2, i + 1)
    } else {
        (v, conc, t)
    }
}

/// Clipping passes until a pass leaves as many vertices as it found (`bound`), fewer
/// than three are left, or three are left, which make the last triangle.
pub open spec fn clip_rounds<C: Fn(usize, usize, usize) -> Convexity, I: Fn(
    usize,
    usize,
    usize,
    usize,
) -> bool>(
    convexity: C,
    inside: I,
    v: Seq<usize>,
    conc: Seq<usize>,
    t: Seq<u32>,
    bound: int,
) -> Seq<u32>
    decreases bound,
{
    if v.len() >= bound || v.len() < 3 {
        t
    } else if v.len() == 3 {
        t.push(v[0] as u32).push(v[1] as u32).push(v[2] as u32)
    } else {
        let s = clip_pass(convexity, inside, v, conc, t, 0);
        clip_rounds(convexity, inside, s.0, s.1, s.2, v.len() as int)
    }
}

/// The triangles that ear clipping gives for the polygon `v` with concave list
/// `conc`.
pub open spec fn ear_clip<C: Fn(usize, usize, usize) -> Convexity, I: Fn(
    usize,
    usize,
    usize,
    usize,
) -> bool>(convexity: C, inside: I, v: Seq<usize>, conc: Seq<usize>) -> Seq<u32> {
    clip_rounds(convexity, inside, v, conc, Seq::empty(), v.len() + 1int)
}

proof fn lemma_first_index(s: Seq<usize>, x: usize, j: int)
    requires
        0 <= j < s.len(),
        s[j] == x,
        forall|t: int| 0 <= t < j ==> s[t] != x,
    ensures
        first_index(s, x) == j,
{
    let k = first_index(s, x);
    assert(0 <= k < s.len() && s[k] == x && forall|t: int| 0 <= t < k ==> s[t] != x);
    if k < j {
        assert(s[k] != x);
    } else if j < k {
        assert(s[j] != x);
    }
}

/// The first position of `x` in `v`.
fn find_position(v: &Vec<usize>, x: usize) -> (r: Option<usize>)
    ensures
        match r {
            Some(j) => j < v@.len() && v@[j as int] == x && forall|t: int| 0 <= t < j ==> v@[t] != x,
            None => !v@.contains(x),
        },
{
    let mut j: usize = 0;
    while j < v.len()
        invariant
            j <= v@.len(),
            forall|t: int| 0 <= t < j ==> v@[t] != x,
        decreases v@.len() - j,
    {
        if v[j] == x {
            return Some(j);
        }
        j = j + 1;
    }
    None
}

/// `v` without the entries at position `a`, and at `b` and `c` where asked.
fn without_positions(v: &Vec<usize>, a: usize, drop_b: bool, b: usize, drop_c: bool, c: usize) -> (r:
    Vec<usize>)
    requires
        a < v@.len(),
    ensures
        r@ == select(v@, kept_positions(a as int, drop_b, b as int, drop_c, c as int)),
        r@.len() < v@.len(),
        !drop_b && !drop_c ==> r@.len() == v@.len() - 1,
        b < v@.len() && c < v@.len() && a != b && b != c && a != c ==> r@.len() == v@.len() - 1
            - (if drop_b { 1int } else { 0int }) - (if drop_c { 1int } else { 0int }),
        forall|j: int| 0 <= j < r@.len() ==> v@.contains(#[trigger] r@[j]),
        v@.no_duplicates() ==> r@.no_duplicates(),
{
    let mut r: Vec<usize> = Vec::new();
    let ghost mut from: Seq<int> = Seq::empty();
    let mut k: usize = 0;
    while k < v.len()
        invariant
            a < v@.len(),
            k <= v@.len(),
            r@.len() + (if a < k { 1int } else { 0int }) <= k,
            !drop_b && !drop_c ==> r@.len() + (if a < k { 1int } else { 0int }) == k,
            b < v@.len() && c < v@.len() && a != b && b != c && a != c ==> r@.len() + (if a < k {
                1int
            } else {
                0int
            }) + (if drop_b && b < k { 1int } else { 0int }) + (if drop_c && c < k {
                1int
            } else {
                0int
            }) == k,
            from.len() == r@.len(),
            r@ == index_seq(k as int).filter(kept_positions(a as int, drop_b, b as int, drop_c, c as int)).map_values(|p: usize| v@[p as int]),
            forall|j: int|
                0 <= j < r@.len() ==> 0 <= #[trigger] from[j] < k && v@[from[j]] == r@[j] && from[j]
                    != a && !(drop_b && from[j] == b) && !(drop_c && from[j] == c),
            forall|x: int, y: int| 0 <= x < y < r@.len() ==> #[trigger] from[x] < #[trigger] from[y],
        decreases v@.len() - k,
    {
        proof {
            lemma_select_step(v@, kept_positions(a as int, drop_b, b as int, drop_c, c as int), k as int);
        }
        if k != a && !(drop_b && k == b) && !(drop_c && k == c) {
            r.push(v[k]);
            proof {
                from = from.push(k as int);
            }
        }
        k = k + 1;
    }
    proof {
        assert forall|j: int| 0 <= j < r@.len() implies v@.contains(#[trigger] r@[j]) by {
            assert(v@[from[j]] == r@[j]);
        }
        assert(index_seq(v@.len() as int) =~= index_seq(v@.len() as int));
        if v@.no_duplicates() {
            assert forall|x: int, y: int|
                0 <= x < r@.len() && 0 <= y < r@.len() && x != y implies r@[x] != r@[y] by {
                if x < y {
                    assert(from[x] < from[y]);
                } else {
                    assert(from[y] < from[x]);
                }
                assert(v@[from[x]] == r@[x] && v@[from[y]] == r@[y]);
            }
        }
    }
    r
}

/// Triangulates the polygon whose vertices are listed in `vertices` (counter-clockwise)
/// by clipping ears. `concave_points` lists its concave vertices; `convexity` gives
/// the turn at the middle one of three vertices, and `inside(a, b, c, p)` whether
/// vertex `p` lies in the triangle `(a, b, c)`.
///
/// The result is `ear_clip`: passes over the polygon clip each vertex off the
/// concave list that is an ear as the triangle `(prev, curr, next)`; a concave
/// neighbour of a clipped ear that turns convex leaves the concave list, one that
/// turns colinear leaves the polygon. Clipping stops when three vertices are left,
/// which form the last triangle, or when a pass clips nothing. There are never more
/// than `n - 2` triangles, and a polygon without concave vertices gives exactly
/// `n - 2`. Where no vertex is listed twice, each triangle has three different
/// corners.
#[verifier::rlimit(100)]
#[verifier::spinoff_prover]
pub fn trianglate_polygon<C: Fn(usize, usize, usize) -> Convexity, I: Fn(
    usize,
    usize,
    usize,
    usize,
) -> bool>(vertices: Vec<usize>, concave_points: Vec<usize>, convexity: &C, inside: &I) -> (r:
    Vec<u32>)
    requires
        is_convexity_fn(*convexity),
        is_inside_fn(*inside),
        forall|j: int| 0 <= j < vertices@.len() ==> #[trigger] vertices@[j] <= u32::MAX,
    ensures
        r@ == ear_clip(*convexity, *inside, vertices@, concave_points@),
        r@.len() % 3 == 0,
        r@.len() + 6 <= 3 * at_least_two(vertices@.len() as int),
        forall|j: int| 0 <= j < r@.len() ==> vertices@.contains(#[trigger] r@[j] as usize),
        concave_points@.len() == 0 && vertices@.len() >= 3 ==> r@.len() == 3 * (vertices@.len() - 2),
        vertices@.no_duplicates() ==> corners_distinct(r@),
{
    let ghost orig = vertices@;
    let ghost concave0 = concave_points@;
    let ghost n = orig.len() as int;
    let ghost convex = concave_points@.len() == 0 && n >= 3;
    let ghost mut bound: int = n + 1;
    let mut vertices = vertices;
    let mut concave_points = concave_points;
    let mut triangles: Vec<u32> = Vec::new();
    let mut prev_m: Option<usize> = None;

    loop
        invariant_except_break
            triangles@.len() + 3 * at_least_two(vertices@.len() as int) <= 3 * at_least_two(n),
            convex ==> triangles@.len() / 3 + vertices@.len() == n && vertices@.len() >= 2,
            convex ==> match prev_m {
                Some(p) => vertices@.len() < p,
                None => vertices@.len() == n,
            },
            ear_clip(*convexity, *inside, orig, concave0) == clip_rounds(
                *convexity,
                *inside,
                vertices@,
                concave_points@,
                triangles@,
                bound,
            ),
            match prev_m {
                Some(p) => bound == p,
                None => bound == vertices@.len() + 1,
            },
        invariant
            convex ==> concave_points@.len() == 0,
            orig.no_duplicates() ==> vertices@.no_duplicates() && corners_distinct(triangles@),
            is_convexity_fn(*convexity),
            is_inside_fn(*inside),
            forall|j: int| 0 <= j < orig.len() ==> #[trigger] orig[j] <= u32::MAX,
            forall|j: int| 0 <= j < vertices@.len() ==> orig.contains(#[trigger] vertices@[j]),
            forall|j: int| 0 <= j < triangles@.len() ==> orig.contains(#[trigger] triangles@[j] as usize),
            triangles@.len() % 3 == 0,
        ensures
            triangles@ == ear_clip(*convexity, *inside, orig, concave0),
            triangles@.len() % 3 == 0,
            triangles@.len() + 6 <= 3 * at_least_two(n),
            forall|j: int| 0 <= j < triangles@.len() ==> orig.contains(#[trigger] triangles@[j] as usize),
            convex ==> triangles@.len() == 3 * (n - 2),
            orig.no_duplicates() ==> corners_distinct(triangles@),
        decreases (if prev_m is Some {
            prev_m->0 as int
        } else {
            vertices@.len() + 1int
        }),
    {
        if let Some(p) = prev_m {
            if vertices.len() >= p {
                break;
            }
        }
        let mut m = vertices.len();
        let ghost m0 = m;
        prev_m = Some(m);
        if m < 3 {
            break;
        } else if m == 3 {
            let ghost before = triangles@;
            proof {
                if orig.no_duplicates() {
                    assert(vertices@[0] != vertices@[1] && vertices@[1] != vertices@[2] && vertices@[0] != vertices@[2]);
                    assert(orig.contains(vertices@[0]) && orig.contains(vertices@[1]) && orig.contains(vertices@[2]));
                }
            }
            triangles.push(vertices[0] as u32);
            triangles.push(vertices[1] as u32);
            triangles.push(vertices[2] as u32);
            proof {
                if orig.no_duplicates() {
                    lemma_push_triangle(before, vertices@[0] as u32, vertices@[1] as u32, vertices@[2] as u32);
                }
                assert forall|j: int| 0 <= j < triangles@.len() implies orig.contains(
                    #[trigger] triangles@[j] as usize,
                ) by {
                    if j >= before.len() {
                        let t = j - before.len();
                        assert(orig.contains(vertices@[t]));
                        assert(vertices@[t] <= u32::MAX) by {
                            let w = choose|w: int| 0 <= w < orig.len() && orig[w] == vertices@[t];
                            assert(orig[w] <= u32::MAX);
                        }
                    } else {
                        assert(triangles@[j] == before[j]);
                    }
                }
            }
            break;
        }
        let ghost v0 = vertices@;
        let ghost c0 = concave_points@;
        let ghost t0 = triangles@;
        let mut i: usize = 0;
        while i < m && m >= 3
            invariant
                m == vertices@.len(),
                convex ==> concave_points@.len() == 0,
                convex ==> triangles@.len() / 3 + vertices@.len() == n && vertices@.len() >= 2,
                convex ==> i == 0 || vertices@.len() < m0,
                m <= m0,
                orig.no_duplicates() ==> vertices@.no_duplicates() && corners_distinct(triangles@),
                is_convexity_fn(*convexity),
                is_inside_fn(*inside),
                forall|j: int| 0 <= j < orig.len() ==> #[trigger] orig[j] <= u32::MAX,
                forall|j: int| 0 <= j < vertices@.len() ==> orig.contains(#[trigger] vertices@[j]),
                forall|j: int|
                    0 <= j < triangles@.len() ==> orig.contains(#[trigger] triangles@[j] as usize),
                triangles@.len() % 3 == 0,
                triangles@.len() + 3 * at_least_two(vertices@.len() as int) <= 3 * at_least_two(n),
                clip_pass(*convexity, *inside, v0, c0, t0, 0) == clip_pass(
                    *convexity,
                    *inside,
                    vertices@,
                    concave_points@,
                    triangles@,
                    i as int,
                ),
            decreases m, m - i,
        {
            let ghost vs = vertices@;
            let ghost cs = concave_points@;
            let ghost ts = triangles@;
            let ghost step = clip_step(*convexity, *inside, vs, cs, ts, i as int);
            proof {
                assert(clip_pass(*convexity, *inside, vs, cs, ts, i as int) == clip_pass(
                    *convexity,
                    *inside,
                    step.0,
                    step.1,
                    step.2,
                    i + 1,
                ));
            }
            let curr = vertices[i];
            let ip = if i == 0 {
                m - 1
            } else {
                i - 1
            };
            let inext = if i + 1 == m {
                0
            } else {
                i + 1
            };
            let prev = vertices[ip];
            let next = vertices[inext];
            proof {
                assert(ip == cyclic_prev(m as int, i as int));
                assert(inext == cyclic_next(m as int, i as int));
            }
            let found = find_position(&concave_points, curr);
            let mut clipped = false;
            if found.is_none() {
                let ear = is_ear(&concave_points, prev, curr, next, inside);
                proof {
                    if ear {
                        assert forall|j: int|
                            0 <= j < cs.len() && cs[j] != prev && cs[j] != next implies !inside_of(
                            *inside,
                            prev,
                            curr,
                            next,
                            #[trigger] cs[j],
                        ) by {
                            assert(inside.ensures((prev, curr, next, cs[j]), false));
                        }
                        assert(is_ear_spec(*inside, cs, prev, curr, next));
                    } else {
                        let j = choose|j: int|
                            0 <= j < cs.len() && cs[j] != prev && cs[j] != next && inside.ensures(
                                (prev, curr, next, #[trigger] cs[j]),
                                true,
                            );
                        assert(inside_of(*inside, prev, curr, next, cs[j]));
                        assert(!is_ear_spec(*inside, cs, prev, curr, next));
                    }
                }
                if ear {
                    clipped = true;
                    let ghost before = triangles@;
                    proof {
                        assert(orig.contains(vertices@[ip as int]));
                        assert(orig.contains(vertices@[i as int]));
                        assert(orig.contains(vertices@[inext as int]));
                        let w0 = choose|w: int| 0 <= w < orig.len() && orig[w] == prev;
                        let w1 = choose|w: int| 0 <= w < orig.len() && orig[w] == curr;
                        let w2 = choose|w: int| 0 <= w < orig.len() && orig[w] == next;
                        assert(orig[w0] <= u32::MAX && orig[w1] <= u32::MAX && orig[w2] <= u32::MAX);
                    }
                    triangles.push(prev as u32);
                    triangles.push(curr as u32);
                    triangles.push(next as u32);
                    proof {
                        if orig.no_duplicates() {
                            assert(ip != i && i != inext && ip != inext);
                            assert(prev != curr && curr != next && prev != next);
                            lemma_push_triangle(before, prev as u32, curr as u32, next as u32);
                        }
                        assert forall|j: int| 0 <= j < triangles@.len() implies orig.contains(
                            #[trigger] triangles@[j] as usize,
                        ) by {
                            if j < before.len() {
                                assert(triangles@[j] == before[j]);
                            }
                        }
                    }

                    // update concave points
                    let ip2 = if ip == 0 {
                        m - 1
                    } else {
                        ip - 1
                    };
                    let inext2 = if inext + 1 == m {
                        0
                    } else {
                        inext + 1
                    };
                    let prev_prev = vertices[ip2];
                    let next_next = vertices[inext2];
                    proof {
                        assert(ip2 == cyclic_prev(m as int, ip as int));
                        assert(inext2 == cyclic_next(m as int, inext as int));
                    }
                    let ghost r1 = reclassify(*convexity, cs, prev_prev, prev, next);
                    let mut drop_prev = false;
                    let mut drop_next = false;
                    if let Some(j) = find_position(&concave_points, prev) {
                        proof {
                            lemma_first_index(cs, prev, j as int);
                        }
                        let k = convexity(prev_prev, prev, next);
                        proof {
                            lemma_convexity_call(*convexity, prev_prev, prev, next, k);
                        }
                        match k {
                            Convexity::Convex => {
                                concave_points.remove(j);
                            },
                            Convexity::Colinear => {
                                drop_prev = true;
                            },
                            Convexity::Concave => {},
                        }
                    }
                    proof {
                        assert(concave_points@ == r1.0 && drop_prev == r1.1);
                    }
                    let ghost c1 = concave_points@;
                    let ghost r2 = reclassify(*convexity, c1, prev, next, next_next);
                    if let Some(j) = find_position(&concave_points, next) {
                        proof {
                            lemma_first_index(c1, next, j as int);
                        }
                        let k = convexity(prev, next, next_next);
                        proof {
                            lemma_convexity_call(*convexity, prev, next, next_next, k);
                        }
                        match k {
                            Convexity::Convex => {
                                concave_points.remove(j);
                            },
                            Convexity::Colinear => {
                                drop_next = true;
                            },
                            Convexity::Concave => {},
                        }
                    }
                    proof {
                        assert(concave_points@ == r2.0 && drop_next == r2.1);
                    }

                    // drop the ear
                    let ghost old_vertices = vertices@;
                    let kept_vertices = without_positions(
                        &vertices,
                        i,
                        drop_prev,
                        ip,
                        drop_next,
                        inext,
                    );
                    vertices = kept_vertices;
                    proof {
                        assert forall|j: int| 0 <= j < vertices@.len() implies orig.contains(
                            #[trigger] vertices@[j],
                        ) by {
                            let w = choose|w: int|
                                0 <= w < old_vertices.len() && old_vertices[w] == vertices@[j];
                            assert(orig.contains(old_vertices[w]));
                        }
                        assert(vertices@ == step.0);
                        assert(concave_points@ == step.1);
                        assert(triangles@ == step.2);
                    }
                    m = vertices.len();
                }
            }
            proof {
                if !clipped {
                    assert(step == (vs, cs, ts));
                }
            }
            i = i + 1;
        }
        proof {
            assert(clip_pass(*convexity, *inside, vertices@, concave_points@, triangles@, i as int) == (
                vertices@,
                concave_points@,
                triangles@,
            ));
            bound = m0 as int;
        }
    }
    triangles
}

/// The indices `a, a + 1, ..., b - 1`.
pub open spec fn index_range(a: int, b: int) -> Seq<usize> {
    Seq::new((b - a) as nat, |i: int| (a + i) as usize)
}

/// Bridges the hole `inner_start..inner_end` into the polygon `outer` at the edge
/// that starts at position `edge`: after the edge's first vertex comes the hole,
/// walked from its vertex `max_x_index` round to `max_x_index` again, then the
/// edge's first vertex once more. The result is one polygon with a slit.
pub fn merge_two_polygons(
    outer: &mut Vec<usize>,
    inner_start: usize,
    inner_end: usize,
    max_x_index: usize,
    edge: usize,
)
    requires
        edge < old(outer)@.len(),
        inner_start <= max_x_index < inner_end,
    ensures
        final(outer)@ == old(outer)@.subrange(0, edge + 1) + index_range(
            max_x_index as int,
            inner_end as int,
        ) + index_range(inner_start as int, max_x_index + 1) + seq![old(outer)@[edge as int]]
            + old(outer)@.subrange(edge + 1, old(outer)@.len() as int),
{
    let ghost s = outer@;
    let n = outer.len();
    let mut merged: Vec<usize> = Vec::new();
    let mut k: usize = 0;
    while k <= edge
        invariant
            s == outer@,
            n == s.len(),
            edge < n,
            k <= edge + 1,
            merged@ == s.subrange(0, k as int),
        decreases edge + 1 - k,
    {
        merged.push(outer[k]);
        proof {
            assert(s.subrange(0, k + 1) =~= s.subrange(0, k as int).push(s[k as int]));
        }
        k = k + 1;
    }
    let ghost head = merged@;
    let mut index = max_x_index;
    while index < inner_end
        invariant
            max_x_index <= index <= inner_end,
            merged@ == head + index_range(max_x_index as int, index as int),
        decreases inner_end - index,
    {
        merged.push(index);
        proof {
            assert(index_range(max_x_index as int, index + 1) =~= index_range(
                max_x_index as int,
                index as int,
            ).push(index));
        }
        index = index + 1;
    }
    let ghost head2 = merged@;
    let mut index = inner_start;
    while index <= max_x_index
        invariant
            inner_start <= index <= max_x_index + 1,
            max_x_index < inner_end,
            merged@ == head2 + index_range(inner_start as int, index as int),
        decreases max_x_index + 1 - index,
    {
        merged.push(index);
        proof {
            assert(index_range(inner_start as int, index + 1) =~= index_range(
                inner_start as int,
                index as int,
            ).push(index));
        }
        index = index + 1;
    }
    merged.push(outer[edge]);
    let ghost head3 = merged@;
    let mut k: usize = edge + 1;
    while k < n
        invariant
            s == outer@,
            n == s.len(),
            edge < n,
            edge + 1 <= k <= n,
            merged@ == head3 + s.subrange(edge + 1, k as int),
        decreases n - k,
    {
        merged.push(outer[k]);
        proof {
            assert(s.subrange(edge + 1, k + 1) =~= s.subrange(edge + 1, k as int).push(s[k as int]));
        }
        k = k + 1;
    }
    proof {
        assert(merged@ =~= s.subrange(0, edge + 1) + index_range(
            max_x_index as int,
            inner_end as int,
        ) + index_range(inner_start as int, max_x_index + 1) + seq![s[edge as int]]
            + s.subrange(edge + 1, s.len() as int));
    }
    *outer = merged;
}

/// Sum of the first `k` entries of `s`.
pub open spec fn prefix_sum(s: Seq<usize>, k: int) -> int
    decreases k,
{
    if k <= 0 {
        0
    } else {
        prefix_sum(s, k - 1) + s[k - 1]
    }
}

/// The non-empty entries of the first `k` entries of `lens`, as running ends:
/// the contour boundaries of loops of lengths `lens` laid end to end.
pub open spec fn running_ends(lens: Seq<usize>, k: int) -> Seq<usize>
    decreases k,
{
    if k <= 0 {
        seq![]
    } else if lens[k - 1] == 0 {
        running_ends(lens, k - 1)
    } else {
        running_ends(lens, k - 1).push(prefix_sum(lens, k) as usize)
    }
}

/// Contour boundaries `[0, e1, e2, ...]` of loops of lengths `lens` stored one
/// after another; empty loops make no contour.
pub fn polygon_offsets(lens: &Vec<usize>) -> (r: Vec<usize>)
    requires
        prefix_sum(lens@, lens@.len() as int) <= usize::MAX,
    ensures
        r@ == seq![0usize] + running_ends(lens@, lens@.len() as int),
{
    let mut r: Vec<usize> = Vec::new();
    r.push(0);
    let mut end: usize = 0;
    let mut k: usize = 0;
    while k < lens.len()
        invariant
            k <= lens@.len(),
            prefix_sum(lens@, lens@.len() as int) <= usize::MAX,
            end == prefix_sum(lens@, k as int),
            r@ == seq![0usize] + running_ends(lens@, k as int),
        decreases lens@.len() - k,
    {
        proof {
            lemma_prefix_sum_monotone(lens@, k + 1, lens@.len() as int);
        }
        if lens[k] > 0 {
            end = end + lens[k];
            r.push(end);
            proof {
                assert(r@ =~= seq![0usize] + running_ends(lens@, k + 1));
            }
        }
        k = k + 1;
    }
    r
}

proof fn lemma_prefix_sum_monotone(s: Seq<usize>, a: int, b: int)
    requires
        0 <= a <= b <= s.len(),
    ensures
        prefix_sum(s, a) <= prefix_sum(s, b),
    decreases b - a,
{
    if a < b {
        lemma_prefix_sum_monotone(s, a, b - 1);
    }
}

/// How a single contour `0, 1, ..., n - 1` is triangulated.
#[derive(Debug)]
pub enum ContourTriangulation {
    /// Every vertex that turns turns right: the contour runs clockwise and gives no
    /// triangles.
    Clockwise,
    /// No vertex turns right: a fan around an added centre vertex `n`.
    Fan(Vec<u32>),
    /// Ears clipped from the contour.
    Ears(Vec<u32>),
}

/// Triangulates the single contour `0, 1, ..., n - 1`: a clockwise contour gives
/// nothing, a convex one a fan around an added centre vertex, any other one is
/// clipped into ears.
pub fn triangulate_contour<C: Fn(usize, usize, usize) -> Convexity, I: Fn(
    usize,
    usize,
    usize,
    usize,
) -> bool>(n: usize, convexity: &C, inside: &I) -> (r: ContourTriangulation)
    requires
        is_convexity_fn(*convexity),
        is_inside_fn(*inside),
        n <= u32::MAX,
    ensures
        r is Clockwise <==> contour_turns(*convexity, n as int).len() == contour_concave(
            *convexity,
            n as int,
        ).len(),
        r is Fan <==> contour_turns(*convexity, n as int).len() != contour_concave(
            *convexity,
            n as int,
        ).len() && contour_concave(*convexity, n as int).len() == 0,
        r is Fan ==> is_fan(r->Fan_0@, n as int),
        r is Ears ==> {
            let t = r->Ears_0@;
            &&& t.len() % 3 == 0
            &&& t.len() + 6 <= 3 * at_least_two(contour_turns(*convexity, n as int).len() as int)
            &&& forall|j: int|
                0 <= j < t.len() ==> contour_turns(*convexity, n as int).contains(
                    #[trigger] t[j] as usize,
                )
            &&& corners_distinct(t)
            &&& t == ear_clip(
                *convexity,
                *inside,
                contour_turns(*convexity, n as int),
                contour_concave(*convexity, n as int),
            )
        },
{
    let (vertices, concave_points) = compute_vertex_convexity(n, convexity);
    if vertices.len() == concave_points.len() {
        return ContourTriangulation::Clockwise;
    }
    if concave_points.len() == 0 {
        proof {
            assert(vertices@.len() > 0);
            assert(n >= 1) by {
                if n == 0 {
                    assert(index_seq(0) =~= Seq::<usize>::empty());
                    reveal(Seq::filter);
                }
            }
        }
        let t = fan_triangles(n);
        assert(is_fan(t@, n as int));
        return ContourTriangulation::Fan(t);
    }
    proof {
        assert forall|j: int| 0 <= j < vertices@.len() implies #[trigger] vertices@[j] <= u32::MAX by {
            index_seq(n as int).lemma_filter_pred(turns(*convexity, n as int), j);
            assert(index_seq(n as int).filter(turns(*convexity, n as int)).contains(vertices@[j]));
            index_seq(n as int).lemma_filter_contains_rev(turns(*convexity, n as int), vertices@[j]);
        }
    }
    ContourTriangulation::Ears(trianglate_polygon(vertices, concave_points, convexity, inside))
}

/// `f` tells for any two points whether they coincide within tolerance, and gives
/// the same answer for the same two.
pub open spec fn is_near_fn<P, F: Fn(P, P) -> bool>(f: F) -> bool {
    &&& forall|a: P, b: P| #[trigger] f.requires((a, b))
    &&& forall|a: P, b: P, x: bool, y: bool|
        #[trigger] f.ensures((a, b), x) && #[trigger] f.ensures((a, b), y) ==> x == y
}

/// Whether `f` finds `a` and `b` to coincide.
pub open spec fn near_of<P, F: Fn(P, P) -> bool>(f: F, a: P, b: P) -> bool {
    f.ensures((a, b), true)
}

/// `s` without each point that coincides with the point kept before it.
pub open spec fn dedup_near<P, F: Fn(P, P) -> bool>(f: F, s: Seq<P>) -> Seq<P>
    decreases s.len(),
{
    if s.len() == 0 {
        s
    } else {
        let d = dedup_near(f, s.drop_last());
        if d.len() > 0 && near_of(f, s.last(), d.last()) {
            d
        } else {
            d.push(s.last())
        }
    }
}

/// The closed polygon through `points`: each point that coincides with the point
/// kept before it is dropped, and so is the last point where it coincides with the
/// first.
pub open spec fn closed_polygon<P, F: Fn(P, P) -> bool>(f: F, points: Seq<P>) -> Seq<P> {
    let d = dedup_near(f, points);
    if d.len() > 0 && near_of(f, d[0], d.last()) {
        d.drop_last()
    } else {
        d
    }
}

proof fn lemma_near_call<P, F: Fn(P, P) -> bool>(f: F, a: P, b: P, x: bool)
    requires
        is_near_fn(f),
        f.ensures((a, b), x),
    ensures
        near_of(f, a, b) == x,
{
    if near_of(f, a, b) {
        assert(f.ensures((a, b), true));
    }
}

/// Turns the points sampled along an edge loop into a polygon: drops each point
/// that coincides with the point kept before it, and the last point where it
/// coincides with the first.
pub fn close_polygon<P: Copy, F: Fn(P, P) -> bool>(points: Vec<P>, near: &F) -> (r: Vec<P>)
    requires
        is_near_fn::<P, F>(*near),
    ensures
        r@ == closed_polygon(*near, points@),
{
    let n = points.len();
    let mut kept: Vec<P> = Vec::new();
    let mut i: usize = 0;
    while i < n
        invariant
            n == points@.len(),
            i <= n,
            is_near_fn::<P, F>(*near),
            kept@ == dedup_near(*near, points@.subrange(0, i as int)),
        decreases n - i,
    {
        let p = points[i];
        let ghost prefix = points@.subrange(0, i + 1);
        proof {
            assert(prefix.drop_last() =~= points@.subrange(0, i as int));
            assert(prefix.last() == p);
        }
        if kept.len() > 0 {
            let last = kept[kept.len() - 1];
            let same = near(p, last);
            proof {
                lemma_near_call(*near, p, last, same);
            }
            if !same {
                kept.push(p);
            }
        } else {
            kept.push(p);
        }
        i = i + 1;
    }
    proof {
        assert(points@.subrange(0, n as int) =~= points@);
    }
    if kept.len() > 0 {
        let first = kept[0];
        let last = kept[kept.len() - 1];
        let same = near(first, last);
        proof {
            lemma_near_call(*near, first, last, same);
        }
        if same {
            kept.pop();
        }
    }
    kept
}

} // verus!
