use vstd::prelude::*;
use crate::mesh::valid_triangles;
use std::collections::VecDeque;

verus! {

/// Strictly increasing contour boundaries: each contour has at least one vertex.
pub open spec fn valid_contours(polygons: Seq<usize>) -> bool {
    forall|i: int, j: int| 0 <= i < j < polygons.len() ==> #[trigger] polygons[i] < #[trigger] polygons[j]
}

/// The vertex after `v` on its contour `start..end`.
pub open spec fn contour_next(start: int, end: int, v: int) -> int {
    if v + 1 == end {
        start
    } else {
        v + 1
    }
}

/// `f` holds, at `v - base` for each vertex `v` of `start..upto`, the edge from `v` to
/// the next vertex on the contour `start..end`.
pub open spec fn contour_edges(
    f: Seq<(usize, usize)>,
    base: int,
    start: int,
    end: int,
    upto: int,
) -> bool {
    forall|v: int|
        start <= v < upto ==> #[trigger] f[v - base] == (v as usize, contour_next(start, end, v) as usize)
}

proof fn lemma_contour_edges_prefix(
    f: Seq<(usize, usize)>,
    g: Seq<(usize, usize)>,
    base: int,
    start: int,
    end: int,
    upto: int,
)
    requires
        contour_edges(f, base, start, end, upto),
        base <= start,
        upto - base <= f.len() <= g.len(),
        f == g.subrange(0, f.len() as int),
    ensures
        contour_edges(g, base, start, end, upto),
{
    assert forall|v: int| start <= v < upto implies #[trigger] g[v - base] == (
        v as usize,
        contour_next(start, end, v) as usize,
    ) by {
        assert(g[v - base] == f[v - base]);
    }
}

/// Every edge of the front joins two of the first `n` vertices.
pub open spec fn front_within(front: Seq<(usize, usize)>, n: int) -> bool {
    forall|j: int| 0 <= j < front.len() ==> (#[trigger] front[j]).0 < n && front[j].1 < n
}

/// The boundary edges of the contours `polygons[k]..polygons[k + 1]`, each contour
/// closed from its last vertex back to its first: the initial front of an
/// advancing-front mesh. The edge that leaves vertex `v` stands at `v - polygons[0]`.
pub fn initial_front(polygons: &Vec<usize>) -> (r: Vec<(usize, usize)>)
    requires
        valid_contours(polygons@),
    ensures
        polygons@.len() >= 1 ==> r@.len() == polygons@.last() - polygons@[0],
        polygons@.len() == 0 ==> r@.len() == 0,
        polygons@.len() >= 1 ==> front_within(r@, polygons@.last() as int),
        forall|k: int|
            0 <= k < polygons@.len() - 1 ==> #[trigger] contour_edges(
                r@,
                polygons@[0] as int,
                polygons@[k] as int,
                polygons@[k + 1] as int,
                polygons@[k + 1] as int,
            ),
{
    let mut front: Vec<(usize, usize)> = Vec::new();
    if polygons.len() == 0 {
        return front;
    }
    let base = polygons[0];
    let last = polygons.len() - 1;
    let mut k: usize = 0;
    while k < last
        invariant
            valid_contours(polygons@),
            last == polygons@.len() - 1,
            base == polygons@[0],
            k <= last,
            front@.len() == polygons@[k as int] - base,
            base <= polygons@[k as int],
            front_within(front@, polygons@[k as int] as int),
            forall|kk: int|
                0 <= kk < k ==> #[trigger] contour_edges(
                    front@,
                    base as int,
                    polygons@[kk] as int,
                    polygons@[kk + 1] as int,
                    polygons@[kk + 1] as int,
                ),
        decreases last - k,
    {
        let start = polygons[k];
        let end = polygons[k + 1];
        let ghost done = front@;
        proof {
            assert forall|t: int| 0 <= t < front@.len() implies (#[trigger] front@[t]).0 < end
                && front@[t].1 < end by {
                assert(front@[t].0 < start && front@[t].1 < start);
            }
        }
        let mut i: usize = start;
        while i < end
            invariant
                base <= start < end,
                start <= i <= end,
                front@.len() == i - base,
                done.len() == start - base,
                done == front@.subrange(0, done.len() as int),
                contour_edges(front@, base as int, start as int, end as int, i as int),
                front_within(front@, end as int),
            decreases end - i,
        {
            let next = if i + 1 == end {
                start
            } else {
                i + 1
            };
            let ghost before = front@;
            front.push((i, next));
            proof {
                assert(done =~= front@.subrange(0, done.len() as int));
                assert(before =~= front@.subrange(0, before.len() as int));
                lemma_contour_edges_prefix(before, front@, base as int, start as int, end as int, i as int);
                assert forall|t: int| 0 <= t < front@.len() implies (#[trigger] front@[t]).0 < end
                    && front@[t].1 < end by {
                    if t < before.len() {
                        assert(front@[t] == before[t]);
                    }
                }
            }
            i = i + 1;
        }
        proof {
            assert forall|kk: int| 0 <= kk < k + 1 implies #[trigger] contour_edges(
                front@,
                base as int,
                polygons@[kk] as int,
                polygons@[kk + 1] as int,
                polygons@[kk + 1] as int,
            ) by {
                if kk < k {
                    assert(polygons@[kk] < polygons@[kk + 1]);
                    assert(polygons@[kk + 1] <= polygons@[k as int]);
                    assert(contour_edges(
                        done,
                        base as int,
                        polygons@[kk] as int,
                        polygons@[kk + 1] as int,
                        polygons@[kk + 1] as int,
                    ));
                    lemma_contour_edges_prefix(
                        done,
                        front@,
                        base as int,
                        polygons@[kk] as int,
                        polygons@[kk + 1] as int,
                        polygons@[kk + 1] as int,
                    );
                }
            }
        }
        k = k + 1;
    }
    front
}

/// Position of the first edge `(a, b)` in `front`.
fn find_edge(front: &VecDeque<(usize, usize)>, a: usize, b: usize) -> (r: Option<usize>)
    ensures
        match r {
            Some(j) => j < front@.len() && front@[j as int] == (a, b) && forall|t: int|
                0 <= t < j ==> front@[t] != (a, b),
            None => !front@.contains((a, b)),
        },
{
    let mut j: usize = 0;
    while j < front.len()
        invariant
            j <= front@.len(),
            forall|t: int| 0 <= t < j ==> front@[t] != (a, b),
        decreases front@.len() - j,
    {
        let e = front[j];
        if e.0 == a && e.1 == b {
            return Some(j);
        }
        j = j + 1;
    }
    None
}

/// `after` is the front `before` once the side `(from, to)` has been added: the
/// first reverse edge `(to, from)` cancels, its place taken by the first edge of the
/// front, or else `(from, to)` is pushed at the front.
pub open spec fn side_added(
    before: Seq<(usize, usize)>,
    from: usize,
    to: usize,
    after: Seq<(usize, usize)>,
) -> bool {
    &&& !before.contains((to, from)) ==> after == seq![(from, to)] + before
    &&& before.contains((to, from)) ==> exists|j: int|
        0 <= j < before.len() && before[j] == (to, from) && (forall|t: int|
            0 <= t < j ==> before[t] != (to, from)) && after == before.update(j, before[0]).drop_first()
}

/// Adds the side `(from, to)` of a new triangle to the advancing front: where the
/// front already holds the reverse edge `(to, from)`, the two cancel and the first
/// such edge leaves the front, its place taken by the front's first edge; otherwise
/// `(from, to)` is pushed at the front.
pub fn add_front_side(front: &mut VecDeque<(usize, usize)>, from: usize, to: usize)
    ensures
        side_added(old(front)@, from, to, final(front)@),
{
    match find_edge(front, to, from) {
        Some(index) => {
            let ghost s = front@;
            let first = front.pop_front();
            match first {
                Some(first) => {
                    if index > 0 {
                        front.remove(index - 1);
                        front.insert(index - 1, first);
                    }
                    proof {
                        assert(front@ =~= s.update(index as int, s[0]).drop_first());
                    }
                },
                None => {},
            }
        },
        None => {
            front.push_front((from, to));
            proof {
                assert(front@ =~= seq![(from, to)] + old(front)@);
            }
        },
    }
}

/// One step of the advancing front on the edge `(a, b)` just taken off the front.
/// With a chosen existing vertex `c` the new triangle is `(a, b, c)` and its sides
/// `(a, c)` and `(c, b)` join the front (or cancel against it); without one, a new
/// vertex numbered `vertex_count` is made the apex, and both its sides are pushed.
/// Returns the new triangle.
pub fn advance_front(
    front: &mut VecDeque<(usize, usize)>,
    edge: (usize, usize),
    node: Option<usize>,
    vertex_count: usize,
) -> (r: (u32, u32, u32))
    requires
        edge.0 <= u32::MAX,
        edge.1 <= u32::MAX,
        vertex_count <= u32::MAX,
        node matches Some(c) ==> c <= u32::MAX,
    ensures
        r.0 == edge.0 as u32,
        r.1 == edge.1 as u32,
        node matches Some(c) ==> r.2 == c as u32,
        node is None ==> r.2 == vertex_count as u32,
        node matches Some(c) ==> exists|mid: Seq<(usize, usize)>|
            side_added(old(front)@, edge.0, c, mid) && side_added(mid, c, edge.1, final(front)@),
        node is None ==> final(front)@ == seq![(vertex_count, edge.1), (edge.0, vertex_count)]
            + old(front)@,
{
    match node {
        Some(c) => {
            add_front_side(front, edge.0, c);
            let ghost mid = front@;
            add_front_side(front, c, edge.1);
            (edge.0 as u32, edge.1 as u32, c as u32)
        },
        None => {
            let index = vertex_count;
            front.push_front((edge.0, index));
            front.push_front((index, edge.1));
            proof {
                assert(front@ =~= seq![(vertex_count, edge.1), (edge.0, vertex_count)] + old(
                    front,
                )@);
            }
            (edge.0 as u32, edge.1 as u32, index as u32)
        },
    }
}

/// `e` is a directed side `(t0, t1)`, `(t1, t2)` or `(t2, t0)` of a triangle of `t`.
pub open spec fn is_side(t: Seq<u32>, e: (usize, usize)) -> bool {
    exists|j: int|
        0 <= j < t.len() / 3 && {
            ||| (e.0 == #[trigger] t[3 * j] as usize && e.1 == t[3 * j + 1] as usize)
            ||| (e.0 == t[3 * j + 1] as usize && e.1 == t[3 * j + 2] as usize)
            ||| (e.0 == t[3 * j + 2] as usize && e.1 == t[3 * j] as usize)
        }
}

proof fn lemma_side_added_keeps(
    before: Seq<(usize, usize)>,
    from: usize,
    to: usize,
    after: Seq<(usize, usize)>,
    e: (usize, usize),
)
    requires
        side_added(before, from, to, after),
        before.contains(e),
    ensures
        after.contains(e) || e == (to, from),
{
    if before.contains((to, from)) {
        let j = choose|j: int|
            0 <= j < before.len() && before[j] == (to, from) && (forall|t: int|
                0 <= t < j ==> before[t] != (to, from)) && after == before.update(j, before[0]).drop_first();
        let p = choose|p: int| 0 <= p < before.len() && before[p] == e;
        if p != j {
            if p == 0 {
                assert(after[j - 1] == e);
            } else {
                assert(after[p - 1] == e);
            }
        }
    } else {
        assert(after[0] == (from, to));
        let p = choose|p: int| 0 <= p < before.len() && before[p] == e;
        assert(after[p + 1] == e);
    }
}

proof fn lemma_side_kept(t: Seq<u32>, a: u32, b: u32, c: u32, e: (usize, usize))
    requires
        t.len() % 3 == 0,
        is_side(t, e),
    ensures
        is_side(t.push(a).push(b).push(c), e),
{
    let u = t.push(a).push(b).push(c);
    let j = choose|j: int|
        0 <= j < t.len() / 3 && {
            ||| (e.0 == #[trigger] t[3 * j] as usize && e.1 == t[3 * j + 1] as usize)
            ||| (e.0 == t[3 * j + 1] as usize && e.1 == t[3 * j + 2] as usize)
            ||| (e.0 == t[3 * j + 2] as usize && e.1 == t[3 * j] as usize)
        };
    assert(u[3 * j] == t[3 * j] && u[3 * j + 1] == t[3 * j + 1] && u[3 * j + 2] == t[3 * j + 2]);
}

proof fn lemma_sides_of_new(t: Seq<u32>, a: u32, b: u32, c: u32)
    requires
        t.len() % 3 == 0,
    ensures
        is_side(t.push(a).push(b).push(c), (a as usize, b as usize)),
        is_side(t.push(a).push(b).push(c), (b as usize, c as usize)),
        is_side(t.push(a).push(b).push(c), (c as usize, a as usize)),
{
    let u = t.push(a).push(b).push(c);
    let j: int = (t.len() / 3) as int;
    assert(3 * j == t.len());
    assert(u[3 * j] == a && u[3 * j + 1] == b && u[3 * j + 2] == c);
}

/// `p` is a point that `apex` gives for some pair of points.
pub open spec fn placed_by<P, A: Fn(P, P) -> P>(apex: A, p: P) -> bool {
    exists|x: P, y: P| apex.ensures((x, y), p)
}

/// Meshes the region bounded by the contours `polygons[k]..polygons[k + 1]` of
/// `points` by the advancing front: the front starts as the contour edges, and each
/// edge taken from its back gets a triangle on its left. `find_node(a, b, selected,
/// front, vertices)` proposes an existing vertex as apex for the edge `(a, b)`, to
/// be asked again with each proposal until it has none left; without any, `apex`
/// places a new vertex. Returns the vertices, the input points first, and the
/// triangles, whether the front ran empty, and the number of steps taken. Each
/// proposal and each triangle takes one of `max_steps` steps; the flag is false only
/// when all of them were taken with the front still not empty. With fewer than two
/// contour boundaries the front is empty at once. A complete mesh has every contour
/// edge as a side of one of its triangles, and every vertex beyond the input points
/// was placed by `apex`.
pub fn generate_triangular_mesh<P: Copy, F, A>(
    points: &Vec<P>,
    polygons: &Vec<usize>,
    find_node: &F,
    apex: &A,
    max_steps: usize,
) -> (r: (Vec<P>, Vec<u32>, bool, usize)) where
    F: Fn(usize, usize, Option<usize>, &VecDeque<(usize, usize)>, &Vec<P>) -> Option<usize>,
    A: Fn(P, P) -> P,

    requires
        valid_contours(polygons@),
        polygons@.len() >= 1 ==> polygons@.last() <= points@.len(),
        forall|a: usize, b: usize, s: Option<usize>, f: &VecDeque<(usize, usize)>, v: &Vec<P>|
            #[trigger] find_node.requires((a, b, s, f, v)),
        forall|a: P, b: P| #[trigger] apex.requires((a, b)),
        points@.len() + max_steps <= u32::MAX,
    ensures
        r.0@.len() >= points@.len(),
        r.0@.subrange(0, points@.len() as int) == points@,
        valid_triangles(r.1@, r.0@.len()),
        r.1@.len() / 3 <= max_steps,
        r.0@.len() - points@.len() <= r.1@.len() / 3,
        polygons@.len() >= 2 && max_steps >= 1 ==> r.1@.len() >= 3,
        r.3 <= max_steps,
        r.1@.len() / 3 <= r.3,
        !r.2 ==> r.3 == max_steps,
        polygons@.len() < 2 ==> r.2 && r.1@.len() == 0 && r.3 == 0,
        forall|k: int|
            points@.len() <= k < r.0@.len() ==> placed_by(*apex, #[trigger] r.0@[k]),
        r.2 ==> forall|k: int, v: int|
            #![trigger polygons@[k], is_side(r.1@, (v as usize, contour_next(polygons@[k] as int, polygons@[k + 1] as int, v) as usize))]
            0 <= k < polygons@.len() - 1 && polygons@[k] <= v < polygons@[k + 1] ==> is_side(
                r.1@,
                (v as usize, contour_next(polygons@[k] as int, polygons@[k + 1] as int, v) as usize),
            ),
{
    let mut vertices: Vec<P> = Vec::new();
    let mut k: usize = 0;
    while k < points.len()
        invariant
            k <= points@.len(),
            vertices@ == points@.subrange(0, k as int),
        decreases points@.len() - k,
    {
        vertices.push(points[k]);
        proof {
            assert(points@.subrange(0, k + 1) =~= points@.subrange(0, k as int).push(points@[k as int]));
        }
        k = k + 1;
    }
    proof {
        assert(points@.subrange(0, points@.len() as int) =~= points@);
    }
    let mut triangles: Vec<u32> = Vec::new();
    let initial = initial_front(polygons);
    let mut front: VecDeque<(usize, usize)> = VecDeque::new();
    let mut j: usize = 0;
    while j < initial.len()
        invariant
            j <= initial@.len(),
            front@ == initial@.subrange(0, j as int),
        decreases initial@.len() - j,
    {
        front.push_back(initial[j]);
        proof {
            assert(initial@.subrange(0, j + 1) =~= initial@.subrange(0, j as int).push(initial@[j as int]));
        }
        j = j + 1;
    }
    proof {
        assert(front@ =~= initial@);
        assert forall|t: int| 0 <= t < front@.len() implies (#[trigger] front@[t]).0 < vertices@.len()
            && front@[t].1 < vertices@.len() by {
            assert(polygons@.len() >= 1);
        }
    }
    let mut steps: usize = max_steps;
    let mut complete = false;
    proof {
        if polygons@.len() >= 2 {
            assert(polygons@[0] < polygons@[polygons@.len() - 1]);
        }
    }
    while steps > 0
        invariant
            polygons@.len() >= 2 ==> initial@.len() >= 1,
            polygons@.len() < 2 ==> initial@.len() == 0,
            initial@.len() == 0 ==> steps == max_steps,
            steps == max_steps ==> front@ == initial@ && triangles@.len() == 0,
            steps < max_steps ==> triangles@.len() >= 3,
            complete ==> front@.len() == 0,
            forall|k: int|
                0 <= k < initial@.len() ==> front@.contains(#[trigger] initial@[k]) || is_side(
                    triangles@,
                    initial@[k],
                ),
            forall|k: int|
                points@.len() <= k < vertices@.len() ==> placed_by(*apex, #[trigger] vertices@[k]),
            vertices@.len() >= points@.len(),
            vertices@.subrange(0, points@.len() as int) == points@,
            vertices@.len() + steps <= points@.len() + max_steps,
            triangles@.len() / 3 + steps <= max_steps,
            vertices@.len() - points@.len() <= triangles@.len() / 3,
            points@.len() + max_steps <= u32::MAX,
            valid_triangles(triangles@, vertices@.len()),
            front_within(front@, vertices@.len() as int),
            forall|a: usize, b: usize, s: Option<usize>, f: &VecDeque<(usize, usize)>, v: &Vec<P>|
                #[trigger] find_node.requires((a, b, s, f, v)),
            forall|a: P, b: P| #[trigger] apex.requires((a, b)),
        ensures
            complete || steps == 0,
        decreases steps,
    {
        let ghost front0 = front@;
        let edge = match front.pop_back() {
            Some(edge) => edge,
            None => {
                complete = true;
                break;
            },
        };
        proof {
            assert(front0 == front@.push(edge));
        }
        steps = steps - 1;
        let ghost budget = steps;
        let mut selected: Option<usize> = None;
        while steps > 0
            invariant
                steps <= budget,
                front0 == front@.push(edge),
                front_within(front@, vertices@.len() as int),
                selected matches Some(c) ==> c < vertices@.len(),
                forall|a: usize, b: usize, s: Option<usize>, f: &VecDeque<(usize, usize)>, v: &Vec<P>|
                    #[trigger] find_node.requires((a, b, s, f, v)),
            decreases steps,
        {
            match find_node(edge.0, edge.1, selected, &front, &vertices) {
                Some(node) => {
                    if node >= vertices.len() {
                        break;
                    }
                    selected = Some(node);
                    steps = steps - 1;
                },
                None => break,
            }
        }
        let a = vertices[edge.0];
        let b = vertices[edge.1];
        let ghost before = front@;
        let ghost tri0 = triangles@;
        let ghost verts0 = vertices@;
        let t = advance_front(&mut front, edge, selected, vertices.len());
        if selected.is_none() {
            let p = apex(a, b);
            vertices.push(p);
            proof {
                assert forall|k: int|
                    points@.len() <= k < vertices@.len() implies placed_by(*apex, #[trigger] vertices@[k]) by {
                    if k < verts0.len() {
                        assert(vertices@[k] == verts0[k]);
                    } else {
                        assert(apex.ensures((a, b), vertices@[k]));
                        assert(placed_by(*apex, vertices@[k]));
                    }
                }
            }
        }
        triangles.push(t.0);
        triangles.push(t.1);
        triangles.push(t.2);
        proof {
            assert forall|k: int|
                points@.len() <= k < vertices@.len() implies placed_by(*apex, #[trigger] vertices@[k]) by {
                if k < verts0.len() {
                    assert(vertices@[k] == verts0[k]);
                }
            }
            lemma_sides_of_new(tri0, t.0, t.1, t.2);
            assert forall|k: int|
                0 <= k < initial@.len() implies front@.contains(#[trigger] initial@[k]) || is_side(
                triangles@,
                initial@[k],
            ) by {
                let e = initial@[k];
                if is_side(tri0, e) {
                    lemma_side_kept(tri0, t.0, t.1, t.2, e);
                } else {
                    assert(front0.contains(e));
                    let p = choose|p: int| 0 <= p < front0.len() && front0[p] == e;
                    if p == front0.len() - 1 {
                        assert(e == edge);
                    } else {
                        assert(before[p] == e);
                        assert(before.contains(e));
                        match selected {
                            Some(c) => {
                                let mid = choose|mid: Seq<(usize, usize)>|
                                    side_added(before, edge.0, c, mid) && side_added(mid, c, edge.1, front@);
                                lemma_side_added_keeps(before, edge.0, c, mid, e);
                                if mid.contains(e) {
                                    lemma_side_added_keeps(mid, c, edge.1, front@, e);
                                }
                            },
                            None => {
                                assert(front@[p + 2] == e);
                            },
                        }
                    }
                }
            }
        }
    }
    let done = complete || front.len() == 0;
    proof {
        assert(complete || steps == 0);
        if polygons@.len() >= 2 && max_steps >= 1 && steps == max_steps {
            assert(complete);
            assert(front@.len() == 0);
            assert(initial@.len() >= 1);
        }
        assert forall|k: int, v: int|
            #![trigger polygons@[k], is_side(triangles@, (v as usize, contour_next(polygons@[k] as int, polygons@[k + 1] as int, v) as usize))]
            done && 0 <= k < polygons@.len() - 1 && polygons@[k] <= v < polygons@[k + 1] implies is_side(
                triangles@,
                (v as usize, contour_next(polygons@[k] as int, polygons@[k + 1] as int, v) as usize),
            ) by {
            assert(contour_edges(initial@, polygons@[0] as int, polygons@[k] as int, polygons@[k + 1] as int, polygons@[k + 1] as int));
            assert(polygons@[0] <= polygons@[k]);
            let e = initial@[v - polygons@[0]];
            assert(polygons@[k + 1] <= polygons@[polygons@.len() - 1]);
            assert(!front@.contains(e));
        }
    }
    (vertices, triangles, done, max_steps - steps)
}

} // verus!
