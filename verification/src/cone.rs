//! The triangles of the cone mesh: a 32-gon base on vertices `0..32` and
//! an apex, vertex 32. The base is triangulated by fans that halve the rim,
//! the sides join each rim edge to the apex.
use vstd::prelude::*;

verus! {

/// A triangle by the indices of its three vertices.
#[derive(Clone, Copy, Debug, PartialEq, Eq, Structural)]
pub struct Triangle {
    pub a: u32,
    pub b: u32,
    pub c: u32,
}

/// Number of vertices of the cone: the rim and the apex.
pub const CONE_VERTEX_COUNT: u32 = 33;

/// The triangle on the given vertex indices.
pub open spec fn tri(a: int, b: int, c: int) -> Triangle {
    Triangle { a: a as u32, b: b as u32, c: c as u32 }
}

/// The `i`-th triangle of the cone: 16 triangles that cut the rim's corners,
/// 12 in four fans to every eighth rim vertex, 2 that close the base, then
/// the 32 side triangles `(s, apex, s + 1)`.
pub open spec fn cone_triangle(i: int) -> Triangle {
    if i < 16 {
        tri((2 * i + 31) % 32, 2 * i, 2 * i + 1)
    } else if i < 28 {
        let j = (i - 16) / 3;
        let k = (i - 16) % 3;
        tri((8 * j + 2 * k + 31) % 32, 8 * j + 2 * k + 1, 8 * j + 7)
    } else if i == 28 {
        tri(31, 7, 15)
    } else if i == 29 {
        tri(15, 23, 31)
    } else {
        tri(i - 30, 32, (i - 29) % 32)
    }
}

/// All triangles of the cone, in order.
pub open spec fn cone_triangles() -> Seq<Triangle> {
    Seq::new(62, |i: int| cone_triangle(i))
}

/// The triangles of the cone mesh.
pub fn triangles() -> (r: Vec<Triangle>)
    ensures
        r@ == cone_triangles(),
{
    let mut r: Vec<Triangle> = Vec::new();
    for k in 0..16u32
        invariant
            r@ =~= Seq::new(k as nat, |i: int| cone_triangle(i)),
    {
        r.push(Triangle { a: (2 * k + 31) % 32, b: 2 * k, c: 2 * k + 1 });
        assert(r@ =~= Seq::new((k + 1) as nat, |i: int| cone_triangle(i)));
    }
    for j in 0..4u32
        invariant
            r@ =~= Seq::new((16 + 3 * j) as nat, |i: int| cone_triangle(i)),
    {
        for k in 0..3u32
            invariant
                j < 4,
                r@ =~= Seq::new((16 + 3 * j + k) as nat, |i: int| cone_triangle(i)),
        {
            let i: u32 = 16 + 3 * j + k;
            assert((i - 16) / 3 == j && (i - 16) % 3 == k);
            r.push(Triangle { a: (8 * j + 2 * k + 31) % 32, b: 8 * j + 2 * k + 1, c: 8 * j + 7 });
            assert(r@ =~= Seq::new((i + 1) as nat, |i: int| cone_triangle(i)));
        }
    }
    r.push(Triangle { a: 31, b: 7, c: 15 });
    r.push(Triangle { a: 15, b: 23, c: 31 });
    assert(r@ =~= Seq::new(30, |i: int| cone_triangle(i)));
    for s in 0..32u32
        invariant
            r@ =~= Seq::new((30 + s) as nat, |i: int| cone_triangle(i)),
    {
        r.push(Triangle { a: s, b: 32, c: (s + 1) % 32 });
        assert(r@ =~= Seq::new((31 + s) as nat, |i: int| cone_triangle(i)));
    }
    r
}

/// The three corners are vertices of the cone, and no two are the same.
pub open spec fn proper(t: Triangle) -> bool {
    &&& t.a < CONE_VERTEX_COUNT && t.b < CONE_VERTEX_COUNT && t.c < CONE_VERTEX_COUNT
    &&& t.a != t.b && t.b != t.c && t.c != t.a
}

/// Every triangle of the cone joins three distinct vertices of the cone.
pub proof fn lemma_cone_triangles_proper()
    ensures
        forall|i: int| 0 <= i < cone_triangles().len() ==> proper(#[trigger] cone_triangles()[i]),
{
    assert forall|i: int| 0 <= i < cone_triangles().len() implies proper(#[trigger] cone_triangles()[i]) by {
        if i >= 16 && i < 28 {
            let j = (i - 16) / 3;
            let k = (i - 16) % 3;
            assert(0 <= j < 4 && 0 <= k < 3);
        }
    }
}

/// Whether `t` runs from vertex `u` to vertex `v` along one of its edges.
pub open spec fn has_edge(t: Triangle, u: u32, v: u32) -> bool {
    ||| t.a == u && t.b == v
    ||| t.b == u && t.c == v
    ||| t.c == u && t.a == v
}

/// The start and the end of edge `e` of `t`: `a` to `b`, `b` to `c`, `c` to `a`.
pub open spec fn edge(t: Triangle, e: int) -> (u32, u32) {
    if e == 0 {
        (t.a, t.b)
    } else if e == 1 {
        (t.b, t.c)
    } else {
        (t.c, t.a)
    }
}

/// The index of the triangle that runs along edge `e` of triangle `i` the
/// other way round.
spec fn partner(i: int, e: int) -> int {
    if i < 16 {
        if e == 0 {
            30 + (2 * i + 31) % 32
        } else if e == 1 {
            30 + 2 * i
        } else if i % 4 < 3 {
            16 + 3 * (i / 4) + i % 4
        } else {
            16 + 3 * (i / 4) + 2
        }
    } else if i < 28 {
        let j = (i - 16) / 3;
        let k = (i - 16) % 3;
        if e == 0 {
            4 * j + k
        } else if e == 1 {
            if k < 2 { i + 1 } else { 4 * j + 3 }
        } else {
            if k == 0 { 28 + j / 2 } else { i - 1 }
        }
    } else if i == 28 {
        if e == 0 { 16 } else if e == 1 { 19 } else { 29 }
    } else if i == 29 {
        if e == 0 { 22 } else if e == 1 { 25 } else { 28 }
    } else {
        let s = i - 30;
        if e == 0 {
            30 + (s + 31) % 32
        } else if e == 1 {
            30 + (s + 1) % 32
        } else if s % 2 == 0 {
            s / 2
        } else {
            ((s + 1) / 2) % 16
        }
    }
}

spec fn edge_matched(i: int, e: int) -> bool {
    let p = partner(i, e);
    let (u, v) = edge(cone_triangle(i), e);
    0 <= p < 62 && has_edge(cone_triangle(p), v, u)
}

spec fn matched(i: int) -> bool {
    edge_matched(i, 0) && edge_matched(i, 1) && edge_matched(i, 2)
}

/// Triangles `lo .. lo + n` all have their edges matched.
spec fn matched_from(lo: int, n: nat) -> bool
    decreases n,
{
    if n == 0 {
        true
    } else {
        matched(lo) && matched_from(lo + 1, (n - 1) as nat)
    }
}

proof fn lemma_matched_from(lo: int, n: nat, i: int)
    requires
        matched_from(lo, n),
        lo <= i < lo + n,
    ensures
        matched(i),
    decreases n,
{
    if i > lo {
        lemma_matched_from(lo + 1, (n - 1) as nat, i);
    }
}

#[verifier::spinoff_prover]
#[verifier::rlimit(40)]
proof fn lemma_rim_matched()
    ensures
        matched_from(0, 16),
{
    reveal_with_fuel(matched_from, 17);
}

#[verifier::spinoff_prover]
#[verifier::rlimit(40)]
proof fn lemma_fans_matched()
    ensures
        matched_from(16, 14),
{
    reveal_with_fuel(matched_from, 15);
}

#[verifier::spinoff_prover]
#[verifier::rlimit(40)]
proof fn lemma_sides_matched()
    ensures
        matched_from(30, 16),
        matched_from(46, 16),
{
    reveal_with_fuel(matched_from, 17);
}

/// The cone is closed and consistently oriented: whenever a triangle runs
/// from `u` to `v`, some triangle runs from `v` to `u`.
pub proof fn lemma_cone_closed()
    ensures
        forall|i: int, u: u32, v: u32|
            0 <= i < cone_triangles().len() && #[trigger] has_edge(cone_triangles()[i], u, v) ==> exists|j: int|
                0 <= j < cone_triangles().len() && #[trigger] has_edge(cone_triangles()[j], v, u),
{
    lemma_rim_matched();
    lemma_fans_matched();
    lemma_sides_matched();
    assert forall|i: int, u: u32, v: u32|
        0 <= i < cone_triangles().len() && #[trigger] has_edge(cone_triangles()[i], u, v) implies exists|j: int|
            0 <= j < cone_triangles().len() && #[trigger] has_edge(cone_triangles()[j], v, u) by {
        if i < 16 {
            lemma_matched_from(0, 16, i);
        } else if i < 30 {
            lemma_matched_from(16, 14, i);
        } else if i < 46 {
            lemma_matched_from(30, 16, i);
        } else {
            lemma_matched_from(46, 16, i);
        }
        let t = cone_triangle(i);
        let e = if t.a == u && t.b == v { 0int } else if t.b == u && t.c == v { 1int } else { 2int };
        assert(edge(t, e) == (u, v));
        assert(edge_matched(i, e));
        let p = partner(i, e);
        assert(has_edge(cone_triangles()[p], v, u));
    }
}

/// The triangle that runs from `u` to `v`, read off the two vertices: by
/// the apex for side edges, otherwise by how far `v` lies from `u` along
/// the rim.
spec fn owner(u: int, v: int) -> int {
    if v == 32 {
        30 + u
    } else if u == 32 {
        30 + (v + 31) % 32
    } else {
        let d = (v - u + 32) % 32;
        if d == 1 {
            if u % 2 == 0 { u / 2 } else { ((u + 1) / 2) % 16 }
        } else if d == 31 {
            30 + v
        } else if d == 30 {
            (u - 1) / 2
        } else if d == 2 {
            let w = (u + 1) % 32;
            if w % 8 == 6 { 16 + 3 * (w / 8) + 2 } else { 16 + 3 * (w / 8) + (w % 8) / 2 }
        } else if d == 4 || d == 26 {
            16 + 3 * (u / 8) + 1
        } else if d == 6 || d == 24 {
            16 + 3 * (u / 8)
        } else if d == 28 {
            16 + 3 * (u / 8) + 2
        } else if d == 8 {
            28 + ((u + 1) % 32) / 16
        } else if u == 15 {
            28
        } else {
            29
        }
    }
}

/// Every edge of triangle `i` is owned by triangle `i`.
spec fn owned(i: int) -> bool {
    let t = cone_triangle(i);
    &&& owner(t.a as int, t.b as int) == i
    &&& owner(t.b as int, t.c as int) == i
    &&& owner(t.c as int, t.a as int) == i
}

spec fn owned_from(lo: int, n: nat) -> bool
    decreases n,
{
    if n == 0 {
        true
    } else {
        owned(lo) && owned_from(lo + 1, (n - 1) as nat)
    }
}

proof fn lemma_owned_from(lo: int, n: nat, i: int)
    requires
        owned_from(lo, n),
        lo <= i < lo + n,
    ensures
        owned(i),
    decreases n,
{
    if i > lo {
        lemma_owned_from(lo + 1, (n - 1) as nat, i);
    }
}

#[verifier::spinoff_prover]
#[verifier::rlimit(40)]
proof fn lemma_rim_owned()
    ensures
        owned_from(0, 16),
{
    reveal_with_fuel(owned_from, 17);
}

#[verifier::spinoff_prover]
#[verifier::rlimit(40)]
proof fn lemma_fans_owned()
    ensures
        owned_from(16, 14),
{
    reveal_with_fuel(owned_from, 15);
}

#[verifier::spinoff_prover]
#[verifier::rlimit(40)]
proof fn lemma_sides_owned()
    ensures
        owned_from(30, 16),
        owned_from(46, 16),
{
    reveal_with_fuel(owned_from, 17);
}

/// No two triangles of the cone run along the same edge in the same
/// direction; with `lemma_cone_closed`, every edge is met the other way round
/// by exactly one triangle.
pub proof fn lemma_cone_edges_unique()
    ensures
        forall|i: int, j: int, u: u32, v: u32|
            0 <= i < cone_triangles().len() && 0 <= j < cone_triangles().len() && #[trigger] has_edge(
                cone_triangles()[i],
                u,
                v,
            ) && #[trigger] has_edge(cone_triangles()[j], u, v) ==> i == j,
{
    lemma_rim_owned();
    lemma_fans_owned();
    lemma_sides_owned();
    assert forall|i: int, j: int, u: u32, v: u32|
        0 <= i < cone_triangles().len() && 0 <= j < cone_triangles().len() && #[trigger] has_edge(
            cone_triangles()[i],
            u,
            v,
        ) && #[trigger] has_edge(cone_triangles()[j], u, v) implies i == j by {
        lemma_owner_of(i);
        lemma_owner_of(j);
    }
}

proof fn lemma_owner_of(i: int)
    requires
        0 <= i < 62,
        owned_from(0, 16),
        owned_from(16, 14),
        owned_from(30, 16),
        owned_from(46, 16),
    ensures
        forall|u: u32, v: u32| #[trigger] has_edge(cone_triangle(i), u, v) ==> owner(u as int, v as int) == i,
{
    if i < 16 {
        lemma_owned_from(0, 16, i);
    } else if i < 30 {
        lemma_owned_from(16, 14, i);
    } else if i < 46 {
        lemma_owned_from(30, 16, i);
    } else {
        lemma_owned_from(46, 16, i);
    }
}

} // verus!
