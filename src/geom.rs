use vstd::prelude::*;
use crate::types::Pt;

verus! {

/// Twice the signed area of the triangle (a, b, p): positive when p lies to
/// the left of the directed line from a to b.
pub open spec fn cross_spec(a: Pt, b: Pt, p: Pt) -> int {
    (b.x - a.x) * (p.y - a.y) - (b.y - a.y) * (p.x - a.x)
}

proof fn lemma_mul_bound(a: int, b: int)
    requires
        -0x1_0000_0000 <= a <= 0x1_0000_0000,
        -0x1_0000_0000 <= b <= 0x1_0000_0000,
    ensures
        -0x1_0000_0000_0000_0000 <= a * b <= 0x1_0000_0000_0000_0000,
{
    assert(-0x1_0000_0000_0000_0000 <= a * b <= 0x1_0000_0000_0000_0000) by (nonlinear_arith)
        requires
            -0x1_0000_0000 <= a <= 0x1_0000_0000,
            -0x1_0000_0000 <= b <= 0x1_0000_0000,
    ;
}

proof fn lemma_mul_bound_small(a: int, b: int)
    requires
        -0x8000_0000 <= a <= 0x8000_0000,
        -0x8000_0000 <= b <= 0x8000_0000,
    ensures
        -0x4000_0000_0000_0000 <= a * b <= 0x4000_0000_0000_0000,
{
    assert(-0x4000_0000_0000_0000 <= a * b <= 0x4000_0000_0000_0000) by (nonlinear_arith)
        requires
            -0x8000_0000 <= a <= 0x8000_0000,
            -0x8000_0000 <= b <= 0x8000_0000,
    ;
}

pub fn cross(a: Pt, b: Pt, p: Pt) -> (r: i128)
    ensures
        r == cross_spec(a, b, p),
{
    let dx1 = b.x as i128 - a.x as i128;
    let dy1 = p.y as i128 - a.y as i128;
    let dy2 = b.y as i128 - a.y as i128;
    let dx2 = p.x as i128 - a.x as i128;
    proof {
        lemma_mul_bound(dx1 as int, dy1 as int);
        lemma_mul_bound(dy2 as int, dx2 as int);
    }
    dx1 * dy1 - dy2 * dx2
}

/// Whether p lies in the bounding box of segment (a, b).
pub open spec fn in_box(a: Pt, b: Pt, p: Pt) -> bool {
    &&& (a.x <= p.x <= b.x || b.x <= p.x <= a.x)
    &&& (a.y <= p.y <= b.y || b.y <= p.y <= a.y)
}

pub open spec fn opposite(u: int, v: int) -> bool {
    (u > 0 && v < 0) || (u < 0 && v > 0)
}

/// Whether the closed segments (p1, p2) and (q1, q2) share a point.
pub open spec fn segments_meet(p1: Pt, p2: Pt, q1: Pt, q2: Pt) -> bool {
    let o1 = cross_spec(p1, p2, q1);
    let o2 = cross_spec(p1, p2, q2);
    let o3 = cross_spec(q1, q2, p1);
    let o4 = cross_spec(q1, q2, p2);
    ||| (opposite(o1, o2) && opposite(o3, o4))
    ||| (o1 == 0 && in_box(p1, p2, q1))
    ||| (o2 == 0 && in_box(p1, p2, q2))
    ||| (o3 == 0 && in_box(q1, q2, p1))
    ||| (o4 == 0 && in_box(q1, q2, p2))
}

fn in_box_exec(a: Pt, b: Pt, p: Pt) -> (r: bool)
    ensures
        r == in_box(a, b, p),
{
    (a.x <= p.x && p.x <= b.x || b.x <= p.x && p.x <= a.x) && (a.y <= p.y && p.y <= b.y || b.y
        <= p.y && p.y <= a.y)
}

pub fn segments_intersect(p1: Pt, p2: Pt, q1: Pt, q2: Pt) -> (r: bool)
    ensures
        r == segments_meet(p1, p2, q1, q2),
{
    let o1 = cross(p1, p2, q1);
    let o2 = cross(p1, p2, q2);
    let o3 = cross(q1, q2, p1);
    let o4 = cross(q1, q2, p2);
    ((o1 > 0 && o2 < 0 || o1 < 0 && o2 > 0) && (o3 > 0 && o4 < 0 || o3 < 0 && o4 > 0)) || (o1 == 0
        && in_box_exec(p1, p2, q1)) || (o2 == 0 && in_box_exec(p1, p2, q2)) || (o3 == 0
        && in_box_exec(q1, q2, p1)) || (o4 == 0 && in_box_exec(q1, q2, p2))
}

/// Whether two polylines share a point: some segment of one meets some
/// segment of the other.
pub open spec fn polylines_meet(a: Seq<Pt>, b: Seq<Pt>) -> bool {
    exists|i: int, j: int|
        0 <= i < a.len() - 1 && 0 <= j < b.len() - 1 && #[trigger] segments_meet(
            a[i],
            a[i + 1],
            b[j],
            b[j + 1],
        )
}

pub fn polylines_intersect(a: &Vec<Pt>, b: &Vec<Pt>) -> (r: bool)
    ensures
        r == polylines_meet(a@, b@),
{
    if a.len() < 2 || b.len() < 2 {
        return false;
    }
    let mut i: usize = 0;
    while i < a.len() - 1
        invariant
            a@.len() >= 2,
            b@.len() >= 2,
            forall|i2: int, j2: int|
                0 <= i2 < i && 0 <= j2 < b@.len() - 1 ==> !#[trigger] segments_meet(
                    a@[i2],
                    a@[i2 + 1],
                    b@[j2],
                    b@[j2 + 1],
                ),
        decreases a@.len() - i,
    {
        let i1: usize = i + 1;
        let mut j: usize = 0;
        while j < b.len() - 1
            invariant
                i1 == i + 1,
                b@.len() >= 2,
                i < a@.len() - 1,
                forall|i2: int, j2: int|
                    0 <= i2 < i && 0 <= j2 < b@.len() - 1 ==> !#[trigger] segments_meet(
                        a@[i2],
                        a@[i2 + 1],
                        b@[j2],
                        b@[j2 + 1],
                    ),
                forall|j2: int|
                    0 <= j2 < j ==> !#[trigger] segments_meet(a@[i as int], a@[i + 1], b@[j2], b@[j2 + 1]),
            decreases b@.len() - j,
        {
            if segments_intersect(a[i], a[i1], b[j], b[j + 1]) {
                return true;
            }
            j = j + 1;
        }
        i = i + 1;
    }
    false
}

/// Whether the upward or downward edge (a, b) crosses the ray that runs from
/// p in the direction of increasing x.
pub open spec fn edge_crosses_ray(a: Pt, b: Pt, p: Pt) -> bool {
    ||| (a.y <= p.y && p.y < b.y && cross_spec(a, b, p) > 0)
    ||| (b.y <= p.y && p.y < a.y && cross_spec(a, b, p) < 0)
}

/// The edge of a ring from vertex i to the next one, wrapping at the end.
pub open spec fn ring_next(poly: Seq<Pt>, i: int) -> Pt {
    if i + 1 < poly.len() {
        poly[i + 1]
    } else {
        poly[0]
    }
}

/// How many of the ring's first `n` edges cross the ray from p.
pub open spec fn crossings(poly: Seq<Pt>, p: Pt, n: nat) -> nat
    decreases n,
{
    if n == 0 {
        0
    } else {
        crossings(poly, p, (n - 1) as nat) + if edge_crosses_ray(
            poly[n - 1],
            ring_next(poly, n - 1),
            p,
        ) {
            1nat
        } else {
            0nat
        }
    }
}

/// Whether p lies within the ring (even-odd rule).
pub open spec fn inside(poly: Seq<Pt>, p: Pt) -> bool {
    crossings(poly, p, poly.len()) % 2 == 1
}

pub fn point_in_polygon(poly: &Vec<Pt>, p: Pt) -> (r: bool)
    ensures
        r == inside(poly@, p),
{
    let mut i: usize = 0;
    let mut odd = false;
    while i < poly.len()
        invariant
            i <= poly@.len(),
            odd == (crossings(poly@, p, i as nat) % 2 == 1),
        decreases poly@.len() - i,
    {
        let a = poly[i];
        let b = if i + 1 < poly.len() {
            poly[i + 1]
        } else {
            poly[0]
        };
        let c = cross(a, b, p);
        if (a.y <= p.y && p.y < b.y && c > 0) || (b.y <= p.y && p.y < a.y && c < 0) {
            odd = !odd;
        }
        i = i + 1;
    }
    odd
}

/// Twice the signed area of the ring's first `n` edges' shoelace terms.
pub open spec fn shoelace(poly: Seq<Pt>, n: nat) -> int
    decreases n,
{
    if n == 0 {
        0
    } else {
        shoelace(poly, (n - 1) as nat) + cross_spec(Pt { x: 0, y: 0 }, poly[n - 1], ring_next(poly, n - 1))
    }
}

/// Whether two edges of the ring share no vertex.
pub open spec fn edges_apart(n: int, i: int, j: int) -> bool {
    i != j && j != i + 1 && i != j + 1 && !(i == 0 && j == n - 1) && !(j == 0 && i == n - 1)
}

/// A usable boundary: at least three vertices, non-zero area, and no two
/// edges that share no vertex meet.
pub open spec fn valid_ring(poly: Seq<Pt>) -> bool {
    &&& poly.len() >= 3
    &&& shoelace(poly, poly.len()) != 0
    &&& forall|i: int, j: int|
        0 <= i < poly.len() && 0 <= j < poly.len() && edges_apart(poly.len() as int, i, j)
            ==> !#[trigger] segments_meet(poly[i], ring_next(poly, i), poly[j], ring_next(poly, j))
}

pub fn ring_is_valid(poly: &Vec<Pt>) -> (r: bool)
    ensures
        r == valid_ring(poly@),
{
    let n = poly.len();
    if n < 3 {
        return false;
    }
    let mut area: i128 = 0;
    let mut i: usize = 0;
    while i < n
        invariant
            n == poly@.len(),
            i <= n,
            area == shoelace(poly@, i as nat),
            -(i as int) * 0x8000_0000_0000_0000 <= area <= (i as int) * 0x8000_0000_0000_0000,
        decreases n - i,
    {
        let b = if i + 1 < n {
            poly[i + 1]
        } else {
            poly[0]
        };
        let c = cross(Pt { x: 0, y: 0 }, poly[i], b);
        proof {
            lemma_mul_bound_small(poly@[i as int].x as int, b.y as int);
            lemma_mul_bound_small(poly@[i as int].y as int, b.x as int);
            assert((i as int + 1) * 0x8000_0000_0000_0000 <= 0x7fff_ffff_ffff_ffff_8000_0000_0000_0000) by (nonlinear_arith)
                requires i < 0xffff_ffff_ffff_ffff;
        }
        area = area + c;
        i = i + 1;
    }
    if area == 0 {
        return false;
    }
    let mut a: usize = 0;
    while a < n
        invariant
            n == poly@.len(),
            n >= 3,
            forall|i: int, j: int|
                0 <= i < a && 0 <= j < n && edges_apart(n as int, i, j) ==> !#[trigger] segments_meet(
                    poly@[i],
                    ring_next(poly@, i),
                    poly@[j],
                    ring_next(poly@, j),
                ),
        decreases n - a,
    {
        let mut b: usize = 0;
        while b < n
            invariant
                n == poly@.len(),
                n >= 3,
                a < n,
                forall|i: int, j: int|
                    0 <= i < a && 0 <= j < n && edges_apart(n as int, i, j) ==> !#[trigger] segments_meet(
                        poly@[i],
                        ring_next(poly@, i),
                        poly@[j],
                        ring_next(poly@, j),
                    ),
                forall|j: int|
                    0 <= j < b && edges_apart(n as int, a as int, j) ==> !#[trigger] segments_meet(
                        poly@[a as int],
                        ring_next(poly@, a as int),
                        poly@[j],
                        ring_next(poly@, j),
                    ),
            decreases n - b,
        {
            let apart = a != b && b != a + 1 && a != b + 1 && !(a == 0 && b == n - 1) && !(b == 0 && a
                == n - 1);
            if apart {
                let a2 = if a + 1 < n { poly[a + 1] } else { poly[0] };
                let b2 = if b + 1 < n { poly[b + 1] } else { poly[0] };
                if segments_intersect(poly[a], a2, poly[b], b2) {
                    proof {
                        assert(a2 == ring_next(poly@, a as int));
                        assert(b2 == ring_next(poly@, b as int));
                        assert(edges_apart(n as int, a as int, b as int));
                        assert(segments_meet(
                            poly@[a as int],
                            ring_next(poly@, a as int),
                            poly@[b as int],
                            ring_next(poly@, b as int),
                        ));
                    }
                    return false;
                }
            }
            b = b + 1;
        }
        a = a + 1;
    }
    true
}

/// The squared distance between two points.
pub open spec fn dist2(a: Pt, b: Pt) -> int {
    (a.x - b.x) * (a.x - b.x) + (a.y - b.y) * (a.y - b.y)
}

pub fn distance_squared(a: Pt, b: Pt) -> (r: i128)
    ensures
        r == dist2(a, b),
{
    let dx = a.x as i128 - b.x as i128;
    let dy = a.y as i128 - b.y as i128;
    proof {
        lemma_mul_bound(dx as int, dx as int);
        lemma_mul_bound(dy as int, dy as int);
    }
    dx * dx + dy * dy
}

} // verus!
