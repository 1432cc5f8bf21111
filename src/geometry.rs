//! Exact ring geometry on the half-unit lattice: signed area and containment.
use vstd::prelude::*;

verus! {

/// A point whose coordinates are twice its grid coordinates.
#[derive(Clone, Copy, Debug, PartialEq, Eq, Structural)]
pub struct Pt {
    pub x: i64,
    pub y: i64,
}

/// Largest coordinate magnitude the exact arithmetic below accepts.
pub const COORD_LIMIT: i64 = 0x4_0000_0000;

/// Longest ring the exact arithmetic below accepts.
pub const RING_LIMIT: u64 = 0x100_0000_0000_0000;

pub open spec fn pt_fits(p: Pt) -> bool {
    -COORD_LIMIT <= p.x <= COORD_LIMIT && -COORD_LIMIT <= p.y <= COORD_LIMIT
}

pub open spec fn ring_fits(r: Seq<Pt>) -> bool {
    &&& r.len() <= RING_LIMIT
    &&& forall|i: int| 0 <= i < r.len() ==> pt_fits(#[trigger] r[i])
}

/// The shoelace term of the directed edge from `a` to `b`.
pub open spec fn cross(a: Pt, b: Pt) -> int {
    a.y * b.x - a.x * b.y
}

/// Signed area (times two, in lattice units) of the ring through the points
/// of `r` in order; a closed ring repeats its first point at the end.
pub open spec fn signed_area(r: Seq<Pt>) -> int
    decreases r.len(),
{
    if r.len() < 2 {
        0
    } else {
        signed_area(r.drop_last()) + cross(r[r.len() - 2], r[r.len() - 1])
    }
}

/// The points of `r` in reverse order.
pub open spec fn reversed(r: Seq<Pt>) -> Seq<Pt> {
    Seq::new(r.len(), |i: int| r[r.len() - 1 - i])
}

proof fn lemma_area_prepend(p: Pt, r: Seq<Pt>)
    requires
        r.len() >= 1,
    ensures
        signed_area(seq![p] + r) == cross(p, r[0]) + signed_area(r),
    decreases r.len(),
{
    let s = seq![p] + r;
    let n = s.len();
    assert(s[n - 1] == r[r.len() - 1]);
    assert(s[n - 2] == if r.len() == 1 { p } else { r[r.len() - 2] });
    if r.len() == 1 {
        assert(s.drop_last() =~= seq![p]);
        assert(signed_area(seq![p]) == 0);
        assert(signed_area(r) == 0);
    } else {
        lemma_area_prepend(p, r.drop_last());
        assert(s.drop_last() =~= seq![p] + r.drop_last());
        assert(r.drop_last()[0] == r[0]);
    }
}

/// Reversing a ring negates its signed area, so a ring and its reverse are
/// never both outer boundaries.
pub proof fn lemma_reverse_negates_area(r: Seq<Pt>)
    ensures
        signed_area(reversed(r)) == -signed_area(r),
        signed_area(r) > 0 ==> !(signed_area(reversed(r)) > 0),
    decreases r.len(),
{
    if r.len() >= 2 {
        let init = r.drop_last();
        lemma_reverse_negates_area(init);
        let last = r[r.len() - 1];
        assert(reversed(r) =~= seq![last] + reversed(init));
        lemma_area_prepend(last, reversed(init));
        let prev = r[r.len() - 2];
        assert(reversed(init)[0] == prev);
        assert(cross(last, prev) == -cross(prev, last)) by (nonlinear_arith);
        assert(signed_area(r) == signed_area(init) + cross(prev, last));
    } else {
        assert(reversed(r).len() < 2);
    }
}

proof fn lemma_cross_bound(a: Pt, b: Pt)
    requires
        pt_fits(a),
        pt_fits(b),
    ensures
        -0x10_0000_0000_0000_0000 <= a.y * b.x <= 0x10_0000_0000_0000_0000,
        -0x10_0000_0000_0000_0000 <= a.x * b.y <= 0x10_0000_0000_0000_0000,
        -0x20_0000_0000_0000_0000 <= cross(a, b) <= 0x20_0000_0000_0000_0000,
{
    lemma_product_bound(a.y as int, b.x as int);
    lemma_product_bound(a.x as int, b.y as int);
}

proof fn lemma_product_bound(u: int, v: int)
    requires
        -0x4_0000_0000 <= u <= 0x4_0000_0000,
        -0x4_0000_0000 <= v <= 0x4_0000_0000,
    ensures
        -0x10_0000_0000_0000_0000 <= u * v <= 0x10_0000_0000_0000_0000,
{
    assert(-0x4_0000_0000 * 0x4_0000_0000 <= u * v <= 0x4_0000_0000 * 0x4_0000_0000)
        by (nonlinear_arith)
        requires
            -0x4_0000_0000 <= u <= 0x4_0000_0000,
            -0x4_0000_0000 <= v <= 0x4_0000_0000,
    ;
}

/// Signed area of `ring`, as `signed_area` states it.
pub fn area(ring: &Vec<Pt>) -> (a: i128)
    requires
        ring_fits(ring@),
    ensures
        a == signed_area(ring@),
{
    let n = ring.len();
    if n < 2 {
        return 0;
    }
    let mut acc: i128 = 0;
    let mut i: usize = 1;
    while i < n
        invariant
            1 <= i <= n,
            n == ring@.len(),
            ring_fits(ring@),
            acc == signed_area(ring@.subrange(0, i as int)),
            -0x20_0000_0000_0000_0000 * i <= acc <= 0x20_0000_0000_0000_0000 * i,
        decreases n - i,
    {
        let a = ring[i - 1];
        let b = ring[i];
        proof {
            lemma_cross_bound(a, b);
            let s = ring@.subrange(0, i as int + 1);
            assert(s.drop_last() =~= ring@.subrange(0, i as int));
            if i == 1 {
                assert(ring@.subrange(0, 1).drop_last().len() == 0);
            }
        }
        acc = acc + ((a.y as i128) * (b.x as i128) - (a.x as i128) * (b.y as i128));
        i = i + 1;
    }
    assert(ring@.subrange(0, n as int) =~= ring@);
    acc
}

pub open spec fn within(p: int, q: int, r: int) -> bool {
    (p <= q && q <= r) || (r <= q && q <= p)
}

pub open spec fn collinear(a: Pt, b: Pt, c: Pt) -> bool {
    (b.x - a.x) * (c.y - a.y) - (c.x - a.x) * (b.y - a.y) == 0
}

/// `c` lies on the closed segment from `a` to `b`.
pub open spec fn on_segment(a: Pt, b: Pt, c: Pt) -> bool {
    collinear(a, b, c) && if a.x == b.x {
        within(a.y as int, c.y as int, b.y as int)
    } else {
        within(a.x as int, c.x as int, b.x as int)
    }
}

/// The horizontal ray from `p` towards increasing `x` crosses the edge `a`-`b`.
pub open spec fn crosses(a: Pt, b: Pt, p: Pt) -> bool {
    &&& (a.y > p.y) != (b.y > p.y)
    &&& if b.y > a.y {
        (p.x - a.x) * (b.y - a.y) < (b.x - a.x) * (p.y - a.y)
    } else {
        (p.x - a.x) * (b.y - a.y) > (b.x - a.x) * (p.y - a.y)
    }
}

/// Index of the point before `i` on a ring of `n` points, wrapping around.
pub open spec fn prev_index(n: int, i: int) -> int {
    if i == 0 {
        n - 1
    } else {
        i - 1
    }
}

pub open spec fn edge_holds(r: Seq<Pt>, p: Pt, i: int) -> bool {
    on_segment(r[i], r[prev_index(r.len() as int, i)], p)
}

pub open spec fn edge_crossed(r: Seq<Pt>, p: Pt, i: int) -> bool {
    crosses(r[i], r[prev_index(r.len() as int, i)], p)
}

/// Number of the first `k` edges of `r` that the ray from `p` crosses.
pub open spec fn crossing_count(r: Seq<Pt>, p: Pt, k: int) -> nat
    decreases k,
{
    if k <= 0 {
        0
    } else {
        crossing_count(r, p, k - 1) + if edge_crossed(r, p, k - 1) {
            1nat
        } else {
            0nat
        }
    }
}

/// Where `p` lies against ring `r`: 0 on an edge, 1 inside, -1 outside
/// (by the parity of the edges the ray from `p` crosses).
pub open spec fn point_position(r: Seq<Pt>, p: Pt) -> int {
    if exists|i: int| 0 <= i < r.len() && edge_holds(r, p, i) {
        0
    } else if crossing_count(r, p, r.len() as int) % 2 == 1 {
        1
    } else {
        -1
    }
}

/// Position against `r` of the first point of `hole` from index `k` on that
/// is not on an edge of `r`; 0 when there is none.
pub open spec fn hole_position_from(r: Seq<Pt>, hole: Seq<Pt>, k: int) -> int
    decreases hole.len() - k,
{
    if k < 0 || k >= hole.len() {
        0
    } else if point_position(r, hole[k]) != 0 {
        point_position(r, hole[k])
    } else {
        hole_position_from(r, hole, k + 1)
    }
}

pub open spec fn hole_position(r: Seq<Pt>, hole: Seq<Pt>) -> int {
    hole_position_from(r, hole, 0)
}

proof fn lemma_span_product(u: int, v: int)
    requires
        -0x8_0000_0000 <= u <= 0x8_0000_0000,
        -0x8_0000_0000 <= v <= 0x8_0000_0000,
    ensures
        -0x40_0000_0000_0000_0000 <= u * v <= 0x40_0000_0000_0000_0000,
{
    assert(-0x8_0000_0000 * 0x8_0000_0000 <= u * v <= 0x8_0000_0000 * 0x8_0000_0000)
        by (nonlinear_arith)
        requires
            -0x8_0000_0000 <= u <= 0x8_0000_0000,
            -0x8_0000_0000 <= v <= 0x8_0000_0000,
    ;
}

/// Position of `point` against `ring`, as `point_position` states it.
pub fn ring_contains(ring: &Vec<Pt>, point: Pt) -> (c: i32)
    requires
        ring_fits(ring@),
        pt_fits(point),
    ensures
        c == point_position(ring@, point),
{
    let n = ring.len();
    let x = point.x as i128;
    let y = point.y as i128;
    let mut inside: i32 = -1;
    let mut i: usize = 0;
    while i < n
        invariant
            0 <= i <= n,
            n == ring@.len(),
            ring_fits(ring@),
            pt_fits(point),
            x == point.x,
            y == point.y,
            forall|k: int| 0 <= k < i ==> !edge_holds(ring@, point, k),
            inside == (if crossing_count(ring@, point, i as int) % 2 == 1 {
                1int
            } else {
                -1int
            }),
        decreases n - i,
    {
        let j: usize = if i == 0 {
            n - 1
        } else {
            i - 1
        };
        let pi = ring[i];
        let pj = ring[j];
        let (xi, yi) = (pi.x as i128, pi.y as i128);
        let (xj, yj) = (pj.x as i128, pj.y as i128);
        proof {
            lemma_span_product(xj - xi, y - yi);
            lemma_span_product(x - xi, yj - yi);
        }
        let col = (xj - xi) * (y - yi) - (x - xi) * (yj - yi);
        let on = col == 0 && if xi == xj {
            (yi <= y && y <= yj) || (yj <= y && y <= yi)
        } else {
            (xi <= x && x <= xj) || (xj <= x && x <= xi)
        };
        if on {
            assert(edge_holds(ring@, point, i as int));
            return 0;
        }
        let lhs = (x - xi) * (yj - yi);
        let rhs = (xj - xi) * (y - yi);
        let crossed = ((yi > y) != (yj > y)) && if yj > yi {
            lhs < rhs
        } else {
            lhs > rhs
        };
        assert(crossed == edge_crossed(ring@, point, i as int));
        if crossed {
            inside = -inside;
        }
        i = i + 1;
    }
    inside
}

/// Position of `hole` against `ring`, as `hole_position` states it: the
/// position of its first point that is not on an edge of `ring`.
pub fn contains(ring: &Vec<Pt>, hole: &Vec<Pt>) -> (c: i32)
    requires
        ring_fits(ring@),
        ring_fits(hole@),
    ensures
        c == hole_position(ring@, hole@),
{
    let n = hole.len();
    let mut k: usize = 0;
    while k < n
        invariant
            0 <= k <= n,
            n == hole@.len(),
            ring_fits(ring@),
            ring_fits(hole@),
            hole_position(ring@, hole@) == hole_position_from(ring@, hole@, k as int),
        decreases n - k,
    {
        let c = ring_contains(ring, hole[k]);
        if c != 0 {
            return c;
        }
        k = k + 1;
    }
    0
}

} // verus!
