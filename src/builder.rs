//! Contour polygons: outer rings and holes, per threshold.
use vstd::prelude::*;
use crate::geometry::{area, contains, hole_position, pt_fits, ring_fits, signed_area, Pt, RING_LIMIT};
use crate::model::sweep;
use crate::isoring::{
    all_closed, all_on_grid, closed_ring, edges_on_grid, in_box, views, ContourError, IsoRingBuilder,
};

verus! {

/// The ring sequences of a list of polygons.
pub open spec fn polygon_views(ps: Seq<Vec<Vec<Pt>>>) -> Seq<Seq<Seq<Pt>>> {
    Seq::new(ps.len(), |j: int| views(ps[j]@))
}

/// A ring with positive signed area bounds a polygon; any other is a hole.
pub open spec fn is_outer(r: Seq<Pt>) -> bool {
    signed_area(r) > 0
}

/// The outer rings of `rs`, in order.
pub open spec fn outers(rs: Seq<Seq<Pt>>) -> Seq<Seq<Pt>>
    decreases rs.len(),
{
    if rs.len() == 0 {
        seq![]
    } else if is_outer(rs.last()) {
        outers(rs.drop_last()).push(rs.last())
    } else {
        outers(rs.drop_last())
    }
}

/// The holes of `rs`, in order.
pub open spec fn holes(rs: Seq<Seq<Pt>>) -> Seq<Seq<Pt>>
    decreases rs.len(),
{
    if rs.len() == 0 {
        seq![]
    } else if !is_outer(rs.last()) {
        holes(rs.drop_last()).push(rs.last())
    } else {
        holes(rs.drop_last())
    }
}

/// `os[j]` is the first outer ring that does not leave hole `h` outside.
pub open spec fn first_container(os: Seq<Seq<Pt>>, h: Seq<Pt>, j: int) -> bool {
    &&& 0 <= j < os.len()
    &&& hole_position(os[j], h) != -1
    &&& forall|k: int| 0 <= k < j ==> hole_position(#[trigger] os[k], h) == -1
}

/// The holes of `hs` whose first container is `os[j]`, in order.
pub open spec fn holes_in(os: Seq<Seq<Pt>>, hs: Seq<Seq<Pt>>, j: int) -> Seq<Seq<Pt>>
    decreases hs.len(),
{
    if hs.len() == 0 {
        seq![]
    } else if first_container(os, hs.last(), j) {
        holes_in(os, hs.drop_last(), j).push(hs.last())
    } else {
        holes_in(os, hs.drop_last(), j)
    }
}

/// Polygons of a list of rings: one per outer ring, in order, each its outer
/// ring followed by the holes that it is the first container of. A hole that
/// no outer ring contains is dropped.
pub open spec fn nested(rs: Seq<Seq<Pt>>) -> Seq<Seq<Seq<Pt>>> {
    Seq::new(
        outers(rs).len(),
        |j: int| seq![outers(rs)[j]] + holes_in(outers(rs), holes(rs), j),
    )
}

/// `polys` are the polygons of some list of closed rings whose edges are all
/// segments of the `dx` by `dy` grid under `mask`.
pub open spec fn polygons_of_grid(polys: Seq<Seq<Seq<Pt>>>, mask: Seq<bool>, dx: int, dy: int) -> bool {
    exists|rs: Seq<Seq<Pt>>|
        (forall|i: int|
            0 <= i < rs.len() ==> closed_ring(#[trigger] rs[i], dx, dy) && edges_on_grid(
                rs[i],
                mask,
                dx,
                dy,
            )) && polys == nested(rs)
}

/// Whether every ring is short enough for exact area arithmetic; the sweep
/// keeps every point small enough.
fn rings_fit(rings: &Vec<Vec<Pt>>, dx: u32, dy: u32) -> (ok: bool)
    requires
        all_closed(rings@, dx as int, dy as int),
    ensures
        ok ==> forall|k: int| 0 <= k < rings@.len() ==> ring_fits(#[trigger] rings@[k]@),
        ok <==> forall|k: int| 0 <= k < rings@.len() ==> (#[trigger] rings@[k])@.len() <= RING_LIMIT,
{
    let mut i: usize = 0;
    while i < rings.len()
        invariant
            0 <= i <= rings@.len(),
            all_closed(rings@, dx as int, dy as int),
            forall|k: int| 0 <= k < i ==> ring_fits(#[trigger] rings@[k]@),
            forall|k: int| 0 <= k < i ==> (#[trigger] rings@[k])@.len() <= RING_LIMIT,
        decreases rings@.len() - i,
    {
        if rings[i].len() as u64 > RING_LIMIT {
            return false;
        }
        proof {
            let r = rings@[i as int]@;
            assert(closed_ring(r, dx as int, dy as int));
            assert forall|q: int| 0 <= q < r.len() implies pt_fits(#[trigger] r[q]) by {
                assert(in_box(r[q], dx as int, dy as int));
            }
        }
        i = i + 1;
    }
    true
}

/// Every ring of the sweep of `mask` is short enough for exact area arithmetic.
pub open spec fn sweep_fits(mask: Seq<bool>, dx: int, dy: int) -> bool {
    forall|i: int| 0 <= i < sweep(mask, dx, dy).len() ==> (#[trigger] sweep(mask, dx, dy)[i]).len() <= RING_LIMIT
}

/// The polygons of each mask, in order.
pub open spec fn contours_of(masks: Seq<Vec<bool>>, dx: int, dy: int) -> Seq<Seq<Seq<Seq<Pt>>>> {
    Seq::new(masks.len(), |i: int| nested(sweep(masks[i]@, dx, dy)))
}

/// Polygons of each threshold, as `polygon_views` gives them.
pub open spec fn contour_views(cs: Seq<Vec<Vec<Vec<Pt>>>>) -> Seq<Seq<Seq<Seq<Pt>>>> {
    Seq::new(cs.len(), |i: int| polygon_views(cs[i]@))
}

/// Running `contours` twice on the same masks gives the same polygons: what
/// it returns is `contours_of` the masks and the grid size, whatever ran
/// before.
pub proof fn lemma_contours_repeatable(
    masks: Seq<Vec<bool>>,
    dx: int,
    dy: int,
    first: Seq<Vec<Vec<Vec<Pt>>>>,
    second: Seq<Vec<Vec<Vec<Pt>>>>,
)
    requires
        contour_views(first) == contours_of(masks, dx, dy),
        contour_views(second) == contours_of(masks, dx, dy),
    ensures
        contour_views(first) == contour_views(second),
{
}

fn copy_ring(r: &Vec<Pt>) -> (c: Vec<Pt>)
    ensures
        c@ == r@,
{
    let mut c: Vec<Pt> = Vec::new();
    let mut i: usize = 0;
    while i < r.len()
        invariant
            0 <= i <= r@.len(),
            c@ == r@.subrange(0, i as int),
        decreases r@.len() - i,
    {
        c.push(r[i]);
        i = i + 1;
    }
    assert(c@ =~= r@);
    c
}

/// Index of the first ring of `os` that does not leave `h` outside.
fn first_container_of(os: &Vec<Vec<Pt>>, h: &Vec<Pt>) -> (r: Option<usize>)
    requires
        forall|i: int| 0 <= i < os@.len() ==> ring_fits(#[trigger] os@[i]@),
        ring_fits(h@),
    ensures
        r matches Some(j) ==> first_container(views(os@), h@, j as int),
        r is None ==> forall|j: int| !first_container(views(os@), h@, j),
{
    let ghost vs = views(os@);
    let mut j: usize = 0;
    while j < os.len()
        invariant
            0 <= j <= os@.len(),
            vs == views(os@),
            forall|i: int| 0 <= i < os@.len() ==> ring_fits(#[trigger] os@[i]@),
            ring_fits(h@),
            forall|k: int| 0 <= k < j ==> hole_position(#[trigger] vs[k], h@) == -1,
        decreases os@.len() - j,
    {
        if contains(&os[j], h) != -1 {
            return Some(j);
        }
        j = j + 1;
    }
    None
}

/// Groups closed rings into polygons, as `nested` states it: rings of
/// positive signed area become outer rings, and each other ring joins the
/// first outer ring that does not leave it outside.
pub fn polygons_from_rings(rings: &Vec<Vec<Pt>>) -> (ps: Vec<Vec<Vec<Pt>>>)
    requires
        forall|i: int| 0 <= i < rings@.len() ==> ring_fits(#[trigger] rings@[i]@),
    ensures
        polygon_views(ps@) == nested(views(rings@)),
{
    let ghost rs = views(rings@);
    let mut os: Vec<Vec<Pt>> = Vec::new();
    let mut hs: Vec<Vec<Pt>> = Vec::new();
    let mut i: usize = 0;
    while i < rings.len()
        invariant
            0 <= i <= rings@.len(),
            rs == views(rings@),
            forall|k: int| 0 <= k < rings@.len() ==> ring_fits(#[trigger] rings@[k]@),
            views(os@) == outers(rs.subrange(0, i as int)),
            views(hs@) == holes(rs.subrange(0, i as int)),
            forall|k: int| 0 <= k < os@.len() ==> ring_fits(#[trigger] os@[k]@),
            forall|k: int| 0 <= k < hs@.len() ==> ring_fits(#[trigger] hs@[k]@),
        decreases rings@.len() - i,
    {
        let ghost pre = rs.subrange(0, i as int);
        let ghost next = rs.subrange(0, i as int + 1);
        assert(next.drop_last() =~= pre);
        assert(next.last() == rings@[i as int]@);
        let r = copy_ring(&rings[i]);
        if area(&r) > 0 {
            os.push(r);
            assert(views(os@) =~= outers(pre).push(r@));
            assert(views(hs@) =~= holes(next));
        } else {
            hs.push(r);
            assert(views(hs@) =~= holes(pre).push(r@));
            assert(views(os@) =~= outers(next));
        }
        i = i + 1;
    }
    assert(rs.subrange(0, rings@.len() as int) =~= rs);
    let ghost vo = views(os@);
    let ghost vh = views(hs@);
    let mut owner: Vec<Option<usize>> = Vec::new();
    let mut t: usize = 0;
    while t < hs.len()
        invariant
            0 <= t <= hs@.len(),
            vo == views(os@),
            vh == views(hs@),
            forall|k: int| 0 <= k < os@.len() ==> ring_fits(#[trigger] os@[k]@),
            forall|k: int| 0 <= k < hs@.len() ==> ring_fits(#[trigger] hs@[k]@),
            owner@.len() == t,
            forall|k: int|
                0 <= k < t ==> match #[trigger] owner@[k] {
                    Some(j) => first_container(vo, vh[k], j as int),
                    None => forall|j: int| !first_container(vo, vh[k], j),
                },
        decreases hs@.len() - t,
    {
        let o = first_container_of(&os, &hs[t]);
        owner.push(o);
        t = t + 1;
    }
    let mut ps: Vec<Vec<Vec<Pt>>> = Vec::new();
    let mut j: usize = 0;
    while j < os.len()
        invariant
            0 <= j <= os@.len(),
            vo == views(os@),
            vh == views(hs@),
            vo == outers(rs),
            vh == holes(rs),
            owner@.len() == hs@.len(),
            forall|k: int|
                0 <= k < hs@.len() ==> match #[trigger] owner@[k] {
                    Some(j) => first_container(vo, vh[k], j as int),
                    None => forall|j: int| !first_container(vo, vh[k], j),
                },
            ps@.len() == j,
            forall|q: int| 0 <= q < j ==> views(#[trigger] ps@[q]@) == nested(rs)[q],
        decreases os@.len() - j,
    {
        let mut poly: Vec<Vec<Pt>> = Vec::new();
        poly.push(copy_ring(&os[j]));
        let mut t: usize = 0;
        while t < hs.len()
            invariant
                0 <= t <= hs@.len(),
                0 <= j < os@.len(),
                vo == views(os@),
                vh == views(hs@),
                owner@.len() == hs@.len(),
                forall|k: int|
                    0 <= k < hs@.len() ==> match #[trigger] owner@[k] {
                        Some(j) => first_container(vo, vh[k], j as int),
                        None => forall|j: int| !first_container(vo, vh[k], j),
                    },
                views(poly@) == seq![vo[j as int]] + holes_in(vo, vh.subrange(0, t as int), j as int),
            decreases hs@.len() - t,
        {
            let ghost pre = vh.subrange(0, t as int);
            let ghost next = vh.subrange(0, t as int + 1);
            assert(next.drop_last() =~= pre);
            let ghost k = t as int;
            let takes = match owner[t] {
                Some(o) => o == j,
                None => false,
            };
            assert(takes == first_container(vo, vh[k], j as int));
            if takes {
                let h = copy_ring(&hs[t]);
                poly.push(h);
                assert(views(poly@) =~= (seq![vo[j as int]] + holes_in(vo, pre, j as int)).push(h@));
            }
            assert(views(poly@) =~= seq![vo[j as int]] + holes_in(vo, next, j as int));
            t = t + 1;
        }
        assert(vh.subrange(0, hs@.len() as int) =~= vh);
        ps.push(poly);
        j = j + 1;
    }
    assert(polygon_views(ps@) =~= nested(rs));
    ps
}

/// A smoothed coordinate moves between the samples at `from` and `to`
/// (row-major indices), by where the threshold falls between their values.
#[derive(Clone, Copy, Debug, PartialEq, Eq, Structural)]
pub struct Interp {
    pub from: u64,
    pub to: u64,
}

/// How a ring point is smoothed along each axis; `None` leaves the
/// coordinate where marching squares put it.
#[derive(Clone, Copy, Debug, PartialEq, Eq)]
pub struct Smoothing {
    pub x: Option<Interp>,
    pub y: Option<Interp>,
}

/// Sample column (or row) of a half-unit coordinate, rounded towards zero.
pub open spec fn sample_col(c: int) -> int {
    if c < 0 {
        0
    } else {
        c / 2
    }
}

pub open spec fn sample_index(p: Pt, dx: int) -> int {
    sample_col(p.y as int) * dx + sample_col(p.x as int)
}

/// A point on a vertical grid line strictly inside the grid moves along `x`
/// between the sample to its left and the sample at its column.
pub open spec fn x_interp(p: Pt, dx: int, dy: int) -> Option<Interp> {
    let ix = sample_index(p, dx);
    if in_box(p, dx, dy) && p.x % 2 == 0 && 0 < p.x < 2 * dx && ix < dx * dy {
        Some(Interp { from: (ix - 1) as u64, to: ix as u64 })
    } else {
        None
    }
}

/// A point on a horizontal grid line strictly inside the grid moves along
/// `y` between the sample above it and the sample at its row.
pub open spec fn y_interp(p: Pt, dx: int, dy: int) -> Option<Interp> {
    let ix = sample_index(p, dx);
    if in_box(p, dx, dy) && p.y % 2 == 0 && 0 < p.y < 2 * dy && ix < dx * dy {
        Some(Interp { from: (ix - dx) as u64, to: ix as u64 })
    } else {
        None
    }
}

/// Contour generator for a grid of `dx` columns and `dy` rows.
pub struct ContourBuilder {
    dx: u32,
    dy: u32,
    smooth: bool,
}

impl ContourBuilder {
    pub closed spec fn spec_dx(&self) -> int {
        self.dx as int
    }

    pub closed spec fn spec_dy(&self) -> int {
        self.dy as int
    }

    pub closed spec fn spec_smooth(&self) -> bool {
        self.smooth
    }

    /// Constructs a contour generator for a grid of `dx` columns and `dy`
    /// rows; `smooth` asks for rings smoothed by linear interpolation.
    pub fn new(dx: u32, dy: u32, smooth: bool) -> (b: Self)
        ensures
            b.spec_dx() == dx,
            b.spec_dy() == dy,
            b.spec_smooth() == smooth,
    {
        ContourBuilder { dx, dy, smooth }
    }

    /// Number of columns of the grid.
    pub fn dx(&self) -> (r: u32)
        ensures
            r == self.spec_dx(),
    {
        self.dx
    }

    /// Number of rows of the grid.
    pub fn dy(&self) -> (r: u32)
        ensures
            r == self.spec_dy(),
    {
        self.dy
    }

    /// Whether rings are to be smoothed by linear interpolation.
    pub fn smooth(&self) -> (r: bool)
        ensures
            r == self.spec_smooth(),
    {
        self.smooth
    }

    /// Computes the polygons of each threshold, in order: `masks[i]` tells,
    /// sample by sample in row-major order, whether the sample is at or above
    /// the `i`-th threshold. Fails with `BadDimension`, before any sweep,
    /// exactly when some mask does not hold `dx * dy` samples.
    pub fn contours(&self, masks: &Vec<Vec<bool>>) -> (r: Result<Vec<Vec<Vec<Vec<Pt>>>>, ContourError>)
        ensures
            (exists|i: int|
                0 <= i < masks@.len() && (#[trigger] masks@[i])@.len() != self.spec_dx()
                    * self.spec_dy()) <==> r == Err::<Vec<Vec<Vec<Vec<Pt>>>>, ContourError>(
                ContourError::BadDimension,
            ),
            ((forall|i: int|
                0 <= i < masks@.len() ==> (#[trigger] masks@[i])@.len() == self.spec_dx()
                    * self.spec_dy()) && exists|i: int|
                0 <= i < masks@.len() && !sweep_fits(
                    (#[trigger] masks@[i])@,
                    self.spec_dx(),
                    self.spec_dy(),
                )) <==> r == Err::<Vec<Vec<Vec<Vec<Pt>>>>, ContourError>(ContourError::RingTooLong),
            r matches Ok(cs) ==> contour_views(cs@) == contours_of(
                masks@,
                self.spec_dx(),
                self.spec_dy(),
            ),
            r matches Ok(cs) ==> cs@.len() == masks@.len() && forall|i: int|
                0 <= i < cs@.len() ==> polygons_of_grid(
                    polygon_views(#[trigger] cs@[i]@),
                    masks@[i]@,
                    self.spec_dx(),
                    self.spec_dy(),
                ),
    {
        let dx = self.dx;
        let dy = self.dy;
        proof {
            assert((dx as int) * (dy as int) <= 0xFFFF_FFFF * 0xFFFF_FFFF) by (nonlinear_arith)
                requires
                    0 <= dx <= 0xFFFF_FFFF,
                    0 <= dy <= 0xFFFF_FFFF,
            ;
        }
        let size: u64 = (dx as u64) * (dy as u64);
        let mut i: usize = 0;
        while i < masks.len()
            invariant
                0 <= i <= masks@.len(),
                size == dx * dy,
                dx == self.spec_dx(),
                dy == self.spec_dy(),
                forall|k: int| 0 <= k < i ==> (#[trigger] masks@[k])@.len() == dx * dy,
            decreases masks@.len() - i,
        {
            if masks[i].len() as u64 != size {
                return Err(ContourError::BadDimension);
            }
            i = i + 1;
        }
        let mut isoring = IsoRingBuilder::new(dx, dy);
        let mut out: Vec<Vec<Vec<Vec<Pt>>>> = Vec::new();
        let mut i: usize = 0;
        while i < masks.len()
            invariant
                0 <= i <= masks@.len(),
                dx == self.spec_dx(),
                dy == self.spec_dy(),
                isoring.wf(),
                isoring.spec_dx() == dx,
                isoring.spec_dy() == dy,
                forall|k: int| 0 <= k < masks@.len() ==> (#[trigger] masks@[k])@.len() == dx * dy,
                out@.len() == i,
                forall|k: int| 0 <= k < i ==> sweep_fits(#[trigger] masks@[k]@, dx as int, dy as int),
                forall|k: int|
                    0 <= k < i ==> polygon_views(#[trigger] out@[k]@) == nested(
                        sweep(masks@[k]@, dx as int, dy as int),
                    ),
                forall|k: int|
                    0 <= k < i ==> polygons_of_grid(
                        polygon_views(#[trigger] out@[k]@),
                        masks@[k]@,
                        dx as int,
                        dy as int,
                    ),
            decreases masks@.len() - i,
        {
            let polys = match self.contour(&masks[i], &mut isoring) {
                Ok(p) => p,
                Err(e) => {
                    return Err(e);
                },
            };
            out.push(polys);
            i = i + 1;
        }
        assert(contour_views(out@) =~= contours_of(masks@, dx as int, dy as int));
        Ok(out)
    }

    fn contour(&self, mask: &Vec<bool>, isoring: &mut IsoRingBuilder) -> (r: Result<
        Vec<Vec<Vec<Pt>>>,
        ContourError,
    >)
        requires
            old(isoring).wf(),
            old(isoring).spec_dx() == self.spec_dx(),
            old(isoring).spec_dy() == self.spec_dy(),
            mask@.len() == self.spec_dx() * self.spec_dy(),
        ensures
            final(isoring).wf(),
            final(isoring).spec_dx() == self.spec_dx(),
            final(isoring).spec_dy() == self.spec_dy(),
            r is Err ==> r == Err::<Vec<Vec<Vec<Pt>>>, ContourError>(ContourError::RingTooLong),
            r is Ok <==> sweep_fits(mask@, self.spec_dx(), self.spec_dy()),
            r matches Ok(p) ==> polygons_of_grid(
                polygon_views(p@),
                mask@,
                self.spec_dx(),
                self.spec_dy(),
            ) && polygon_views(p@) == nested(sweep(mask@, self.spec_dx(), self.spec_dy())),
    {
        let rings = match isoring.compute(mask) {
            Ok(rings) => rings,
            Err(e) => {
                return Err(e);
            },
        };
        let ghost dx = self.spec_dx();
        let ghost dy = self.spec_dy();
        if !rings_fit(&rings, self.dx, self.dy) {
            proof {
                let k = choose|k: int| 0 <= k < rings@.len() && !((#[trigger] rings@[k])@.len() <= RING_LIMIT);
                assert(views(rings@)[k] == rings@[k]@);
            }
            return Err(ContourError::RingTooLong);
        }
        proof {
            assert forall|k: int| 0 <= k < sweep(mask@, dx, dy).len() implies (#[trigger] sweep(mask@, dx, dy)[k]).len() <= RING_LIMIT by {
                assert(views(rings@)[k] == rings@[k]@);
            }
        }
        let ps = polygons_from_rings(&rings);
        proof {
            let rs = views(rings@);
            assert forall|k: int| 0 <= k < rs.len() implies closed_ring(#[trigger] rs[k], dx, dy)
                && edges_on_grid(rs[k], mask@, dx, dy) by {
                assert(closed_ring(rings@[k]@, dx, dy));
                assert(edges_on_grid(rings@[k]@, mask@, dx, dy));
            }
        }
        Ok(ps)
    }

    /// How each point of `ring` is smoothed: along `x` as `x_interp` states
    /// it, along `y` as `y_interp` states it.
    pub fn smoothing(&self, ring: &Vec<Pt>) -> (r: Vec<Smoothing>)
        ensures
            r@.len() == ring@.len(),
            forall|i: int|
                0 <= i < r@.len() ==> (#[trigger] r@[i]).x == x_interp(
                    ring@[i],
                    self.spec_dx(),
                    self.spec_dy(),
                ) && r@[i].y == y_interp(ring@[i], self.spec_dx(), self.spec_dy()),
    {
        let dx = self.dx as u64;
        let dy = self.dy as u64;
        let mut r: Vec<Smoothing> = Vec::new();
        let mut i: usize = 0;
        while i < ring.len()
            invariant
                0 <= i <= ring@.len(),
                dx == self.spec_dx(),
                dy == self.spec_dy(),
                dx <= 0xFFFF_FFFF,
                dy <= 0xFFFF_FFFF,
                r@.len() == i,
                forall|k: int|
                    0 <= k < i ==> (#[trigger] r@[k]).x == x_interp(ring@[k], dx as int, dy as int)
                        && r@[k].y == y_interp(ring@[k], dx as int, dy as int),
            decreases ring@.len() - i,
        {
            let p = ring[i];
            if p.x < -1 || p.x as i128 > 2 * (dx as i128) + 1 || p.y < -1 || p.y as i128 > 2
                * (dy as i128) + 1 {
                r.push(Smoothing { x: None, y: None });
                i = i + 1;
                continue;
            }
            let xt: u64 = if p.x < 0 { 0 } else { (p.x / 2) as u64 };
            let yt: u64 = if p.y < 0 { 0 } else { (p.y / 2) as u64 };
            proof {
                assert(yt * dx + xt <= 0xFFFF_FFFF * 0xFFFF_FFFF + 0xFFFF_FFFF) by (nonlinear_arith)
                    requires
                        yt <= dy,
                        dy <= 0xFFFF_FFFF,
                        dx <= 0xFFFF_FFFF,
                        xt <= dx,
                ;
                assert(dx * dy <= 0xFFFF_FFFF * 0xFFFF_FFFF) by (nonlinear_arith)
                    requires
                        dy <= 0xFFFF_FFFF,
                        dx <= 0xFFFF_FFFF,
                ;
                assert(yt * dx >= 0) by (nonlinear_arith)
                    requires
                        yt >= 0,
                        dx >= 0,
                ;
            }
            let ix: u64 = yt * dx + xt;
            let inside = ix < dx * dy;
            let sx = if p.x % 2 == 0 && 0 < p.x && (p.x as u64) < 2 * dx && inside {
                Some(Interp { from: ix - 1, to: ix })
            } else {
                None
            };
            let sy = if p.y % 2 == 0 && 0 < p.y && (p.y as u64) < 2 * dy && inside {
                proof {
                    assert(yt * dx >= dx) by (nonlinear_arith)
                        requires
                            yt >= 1,
                            dx >= 0,
                    ;
                }
                Some(Interp { from: ix - dx, to: ix })
            } else {
                None
            };
            r.push(Smoothing { x: sx, y: sy });
            i = i + 1;
        }
        r
    }
}

} // verus!
