//! Marching-squares sweep and the stitching of its segments into rings.
use vstd::prelude::*;
use crate::cases::{case_segments, case_table, offset_ok, Segment};
use crate::geometry::Pt;
use crate::model::{empty_store, key_of, run_cell, run_row, run_rows, stitch_model, sweep, ChainModel, StoreModel};
use crate::store::{
    key_map_clear, key_map_contains, key_map_insert, key_map_new, key_map_remove, slab_clear,
    slab_entries, slab_insert, slab_new, slab_remove, slab_replace,
};
use rustc_hash::FxHashMap;
use slab::Slab;

verus! {

/// Errors of the contour computations.
#[derive(Clone, Copy, Debug, PartialEq, Eq, Structural)]
pub enum ContourError {
    /// The sample count differs from `dx * dy`.
    BadDimension,
    /// A ring is longer than exact area arithmetic allows.
    RingTooLong,
}

/// An open chain of points, with the keys of its two free ends.
pub struct Fragment {
    pub start: u128,
    pub end: u128,
    pub ring: Vec<Pt>,
}

/// The sweep only produces points in this box, in half units.
pub open spec fn in_box(p: Pt, dx: int, dy: int) -> bool {
    -1 <= p.x <= 2 * dx + 1 && -1 <= p.y <= 2 * dy + 1
}

/// The integer identifying a point of the box.
pub open spec fn point_key(p: Pt, dx: int) -> int {
    (p.x + 1) + (p.y + 1) * (2 * dx + 3)
}

/// A ring as the sweep returns it: at least three points, inside the box,
/// and its last point is its first.
pub open spec fn closed_ring(r: Seq<Pt>, dx: int, dy: int) -> bool {
    &&& r.len() >= 3
    &&& r[0] == r[r.len() - 1]
    &&& forall|i: int| 0 <= i < r.len() ==> in_box(#[trigger] r[i], dx, dy)
}

/// The point sequences of a list of rings.
pub open spec fn views(rs: Seq<Vec<Pt>>) -> Seq<Seq<Pt>> {
    Seq::new(rs.len(), |i: int| rs[i]@)
}

pub open spec fn all_closed(rings: Seq<Vec<Pt>>, dx: int, dy: int) -> bool {
    forall|i: int| 0 <= i < rings.len() ==> closed_ring(#[trigger] rings[i]@, dx, dy)
}

/// Sample at column `cx`, row `cy`; cells past the grid's edge read as below.
pub open spec fn corner(mask: Seq<bool>, dx: int, dy: int, cx: int, cy: int) -> bool {
    0 <= cx < dx && 0 <= cy < dy && mask[cy * dx + cx]
}

/// Case code of the cell whose upper left sample is at column `x`, row `y`.
pub open spec fn cell_code(mask: Seq<bool>, dx: int, dy: int, x: int, y: int) -> int {
    (if corner(mask, dx, dy, x, y + 1) { 1int } else { 0 })
        + (if corner(mask, dx, dy, x + 1, y + 1) { 2int } else { 0 })
        + (if corner(mask, dx, dy, x + 1, y) { 4int } else { 0 })
        + (if corner(mask, dx, dy, x, y) { 8int } else { 0 })
}

/// Segment `k` of the cell at column `x`, row `y`, in grid half units.
pub open spec fn cell_segment(mask: Seq<bool>, dx: int, dy: int, x: int, y: int, k: int) -> Segment {
    let s = case_table(cell_code(mask, dx, dy, x, y))[k];
    Segment {
        start: Pt { x: (2 * x + s.start.x) as i64, y: (2 * y + s.start.y) as i64 },
        end: Pt { x: (2 * x + s.end.x) as i64, y: (2 * y + s.end.y) as i64 },
    }
}

/// The directed edge from `a` to `b` is a segment that the case table gives
/// some cell of the grid, the cells past its edges included.
pub open spec fn grid_segment(mask: Seq<bool>, dx: int, dy: int, a: Pt, b: Pt) -> bool {
    exists|x: int, y: int, k: int|
        -1 <= x < dx && -1 <= y < dy && 0 <= k < case_table(cell_code(mask, dx, dy, x, y)).len()
            && #[trigger] cell_segment(mask, dx, dy, x, y, k) == (Segment { start: a, end: b })
}

/// Every edge between consecutive points of `r` is a segment of the grid.
pub open spec fn edges_on_grid(r: Seq<Pt>, mask: Seq<bool>, dx: int, dy: int) -> bool {
    forall|i: int| 0 <= i < r.len() - 1 ==> grid_segment(mask, dx, dy, #[trigger] r[i], r[i + 1])
}

pub open spec fn all_on_grid(rings: Seq<Vec<Pt>>, mask: Seq<bool>, dx: int, dy: int) -> bool {
    forall|i: int| 0 <= i < rings.len() ==> edges_on_grid(#[trigger] rings[i]@, mask, dx, dy)
}

/// A grid with no sample at or above the threshold has no ring: no cell has
/// a segment, and a closed ring has at least one edge.
pub proof fn lemma_empty_mask_has_no_ring(mask: Seq<bool>, dx: int, dy: int, rings: Seq<Vec<Pt>>)
    requires
        mask.len() == dx * dy,
        forall|i: int| 0 <= i < mask.len() ==> !(#[trigger] mask[i]),
        all_closed(rings, dx, dy),
        all_on_grid(rings, mask, dx, dy),
    ensures
        rings.len() == 0,
{
    if rings.len() > 0 {
        let r = rings[0]@;
        assert(closed_ring(r, dx, dy));
        assert(edges_on_grid(r, mask, dx, dy));
        assert(grid_segment(mask, dx, dy, r[0], r[1]));
        let (x, y, k) = choose|x: int, y: int, k: int|
            -1 <= x < dx && -1 <= y < dy && 0 <= k < case_table(cell_code(mask, dx, dy, x, y)).len()
                && #[trigger] cell_segment(mask, dx, dy, x, y, k) == (Segment { start: r[0], end: r[1] });
        assert forall|cx: int, cy: int| !#[trigger] corner(mask, dx, dy, cx, cy) by {
            if 0 <= cx < dx && 0 <= cy < dy {
                assert(0 <= cy * dx + cx < dx * dy) by (nonlinear_arith)
                    requires
                        0 <= cx < dx,
                        0 <= cy < dy,
                ;
            }
        }
        assert(cell_code(mask, dx, dy, x, y) == 0);
    }
}

pub open spec fn chain_of(fr: Fragment) -> ChainModel {
    ChainModel { start: fr.start, end: fr.end, ring: fr.ring@ }
}

/// Every endpoint entry names a live fragment with that start or end.
pub open spec fn links_ok(bs: Map<u128, usize>, be: Map<u128, usize>, frags: Map<usize, Fragment>) -> bool {
    &&& forall|k: u128|
        #[trigger] bs.contains_key(k) ==> frags.contains_key(bs[k]) && frags[bs[k]].start == k
    &&& forall|k: u128|
        #[trigger] be.contains_key(k) ==> frags.contains_key(be[k]) && frags[be[k]].end == k
}

/// The concrete store (endpoint maps and slab entries) is the model store
/// under the one-to-one renaming `ids` of slab keys to model ids.
pub open spec fn refines_parts(
    bs: Map<u128, usize>,
    be: Map<u128, usize>,
    frags: Map<usize, Fragment>,
    ids: Map<usize, nat>,
    st: StoreModel,
) -> bool {
    &&& ids.dom() == frags.dom()
    &&& forall|i: usize, j: usize|
        #[trigger] ids.contains_key(i) && #[trigger] ids.contains_key(j) && ids[i] == ids[j] ==> i == j
    &&& forall|i: usize|
        #[trigger] ids.contains_key(i) ==> ids[i] < st.next && st.chains.contains_key(ids[i])
            && st.chains[ids[i]] == chain_of(frags[i])
    &&& forall|k: u128| #[trigger] bs.contains_key(k) == st.by_start.contains_key(k)
    &&& forall|k: u128| #[trigger] st.by_start.contains_key(k) == bs.contains_key(k)
    &&& forall|k: u128| #[trigger] bs.contains_key(k) ==> st.by_start[k] == ids[bs[k]]
    &&& forall|k: u128| #[trigger] be.contains_key(k) == st.by_end.contains_key(k)
    &&& forall|k: u128| #[trigger] st.by_end.contains_key(k) == be.contains_key(k)
    &&& forall|k: u128| #[trigger] be.contains_key(k) ==> st.by_end[k] == ids[be[k]]
}

proof fn lemma_refine_close(
    bs: Map<u128, usize>,
    be: Map<u128, usize>,
    frags: Map<usize, Fragment>,
    ids: Map<usize, nat>,
    st: StoreModel,
    sk: u128,
    ek: u128,
    f: usize,
    rings: Seq<Seq<Pt>>,
)
    requires
        refines_parts(bs, be, frags, ids, st),
        links_ok(bs, be, frags),
        be.contains_key(sk),
        bs.contains_key(ek),
        be[sk] == f,
        bs[ek] == f,
    ensures
        refines_parts(
            bs.remove(ek),
            be.remove(sk),
            frags.remove(f),
            ids.remove(f),
            StoreModel {
                by_start: st.by_start.remove(ek),
                by_end: st.by_end.remove(sk),
                chains: st.chains.remove(ids[f]),
                next: st.next,
                rings,
            },
        ),
{
    assert(ids.remove(f).dom() =~= frags.remove(f).dom());
}

proof fn lemma_refine_merge(
    bs: Map<u128, usize>,
    be: Map<u128, usize>,
    frags: Map<usize, Fragment>,
    ids: Map<usize, nat>,
    st: StoreModel,
    sk: u128,
    ek: u128,
    f: usize,
    g: usize,
    ix: usize,
    merged: Fragment,
)
    requires
        refines_parts(bs, be, frags, ids, st),
        links_ok(bs, be, frags),
        be.contains_key(sk),
        bs.contains_key(ek),
        be[sk] == f,
        bs[ek] == g,
        f != g,
        !frags.remove(f).remove(g).contains_key(ix),
        merged.start == frags[f].start,
        merged.end == frags[g].end,
        merged.ring@ == frags[f].ring@ + frags[g].ring@,
    ensures
        refines_parts(
            bs.remove(ek).insert(frags[f].start, ix),
            be.remove(sk).insert(frags[g].end, ix),
            frags.remove(f).remove(g).insert(ix, merged),
            ids.remove(f).remove(g).insert(ix, st.next),
            StoreModel {
                by_start: st.by_start.remove(ek).insert(frags[f].start, st.next),
                by_end: st.by_end.remove(sk).insert(frags[g].end, st.next),
                chains: st.chains.remove(ids[f]).remove(ids[g]).insert(
                    st.next,
                    ChainModel {
                        start: st.chains[ids[f]].start,
                        end: st.chains[ids[g]].end,
                        ring: st.chains[ids[f]].ring + st.chains[ids[g]].ring,
                    },
                ),
                next: st.next + 1,
                rings: st.rings,
            },
        ),
{
    let ids2 = ids.remove(f).remove(g).insert(ix, st.next);
    let frags2 = frags.remove(f).remove(g).insert(ix, merged);
    assert(ids2.dom() =~= frags2.dom());
    let bs2 = bs.remove(ek).insert(frags[f].start, ix);
    let be2 = be.remove(sk).insert(frags[g].end, ix);
    assert forall|k: u128| #[trigger] bs2.contains_key(k) implies (k == frags[f].start
        || (bs[k] != f && bs[k] != g && bs[k] != ix && ids2[bs2[k]] == ids[bs[k]])) by {
        if k != frags[f].start {
            assert(k != ek);
            assert(frags.contains_key(bs[k]));
        }
    }
    assert forall|k: u128| #[trigger] be2.contains_key(k) implies (k == frags[g].end
        || (be[k] != f && be[k] != g && be[k] != ix && ids2[be2[k]] == ids[be[k]])) by {
        if k != frags[g].end {
            assert(k != sk);
            assert(frags.contains_key(be[k]));
        }
    }
}

proof fn lemma_refine_extend_end(
    bs: Map<u128, usize>,
    be: Map<u128, usize>,
    frags: Map<usize, Fragment>,
    ids: Map<usize, nat>,
    st: StoreModel,
    sk: u128,
    ek: u128,
    f: usize,
    grown: Fragment,
)
    requires
        refines_parts(bs, be, frags, ids, st),
        links_ok(bs, be, frags),
        be.contains_key(sk),
        be[sk] == f,
        grown.start == frags[f].start,
        grown.end == ek,
    ensures
        refines_parts(
            bs,
            be.remove(sk).insert(ek, f),
            frags.insert(f, grown),
            ids,
            StoreModel {
                by_start: st.by_start,
                by_end: st.by_end.remove(sk).insert(ek, ids[f]),
                chains: st.chains.insert(ids[f], chain_of(grown)),
                next: st.next,
                rings: st.rings,
            },
        ),
{
    assert(ids.dom() =~= frags.insert(f, grown).dom());
}

proof fn lemma_refine_extend_start(
    bs: Map<u128, usize>,
    be: Map<u128, usize>,
    frags: Map<usize, Fragment>,
    ids: Map<usize, nat>,
    st: StoreModel,
    sk: u128,
    ek: u128,
    f: usize,
    grown: Fragment,
)
    requires
        refines_parts(bs, be, frags, ids, st),
        links_ok(bs, be, frags),
        bs.contains_key(ek),
        bs[ek] == f,
        grown.start == sk,
        grown.end == frags[f].end,
    ensures
        refines_parts(
            bs.remove(ek).insert(sk, f),
            be,
            frags.insert(f, grown),
            ids,
            StoreModel {
                by_start: st.by_start.remove(ek).insert(sk, ids[f]),
                by_end: st.by_end,
                chains: st.chains.insert(ids[f], chain_of(grown)),
                next: st.next,
                rings: st.rings,
            },
        ),
{
    assert(ids.dom() =~= frags.insert(f, grown).dom());
}

proof fn lemma_refine_open(
    bs: Map<u128, usize>,
    be: Map<u128, usize>,
    frags: Map<usize, Fragment>,
    ids: Map<usize, nat>,
    st: StoreModel,
    sk: u128,
    ek: u128,
    ix: usize,
    fresh: Fragment,
)
    requires
        refines_parts(bs, be, frags, ids, st),
        links_ok(bs, be, frags),
        !frags.contains_key(ix),
        fresh.start == sk,
        fresh.end == ek,
    ensures
        refines_parts(
            bs.insert(sk, ix),
            be.insert(ek, ix),
            frags.insert(ix, fresh),
            ids.insert(ix, st.next),
            StoreModel {
                by_start: st.by_start.insert(sk, st.next),
                by_end: st.by_end.insert(ek, st.next),
                chains: st.chains.insert(st.next, chain_of(fresh)),
                next: st.next + 1,
                rings: st.rings,
            },
        ),
{
    let ids2 = ids.insert(ix, st.next);
    assert(ids2.dom() =~= frags.insert(ix, fresh).dom());
    assert forall|k: u128| #[trigger] bs.contains_key(k) implies bs[k] != ix && ids2[bs[k]] == ids[bs[k]] by {
        assert(frags.contains_key(bs[k]));
    }
    assert forall|k: u128| #[trigger] be.contains_key(k) implies be[k] != ix && ids2[be[k]] == ids[be[k]] by {
        assert(frags.contains_key(be[k]));
    }
}

proof fn lemma_key_injective(p: Pt, q: Pt, dx: int, dy: int)
    requires
        dx >= 0,
        in_box(p, dx, dy),
        in_box(q, dx, dy),
        point_key(p, dx) == point_key(q, dx),
    ensures
        p == q,
{
    let w = 2 * dx + 3;
    let a = p.x + 1;
    let b = p.y + 1;
    let c = q.x + 1;
    let d = q.y + 1;
    assert((b - d) * w == c - a) by (nonlinear_arith)
        requires
            a + b * w == c + d * w,
    ;
    if b > d {
        assert((b - d) * w >= w) by (nonlinear_arith)
            requires
                b - d >= 1,
                w > 0,
        ;
    } else if b < d {
        assert((d - b) * w >= w) by (nonlinear_arith)
            requires
                d - b >= 1,
                w > 0,
        ;
        assert((b - d) * w == -((d - b) * w)) by (nonlinear_arith);
    }
    assert(b == d);
    assert(a == c);
}

/// Isoring generator: sweeps a grid cell by cell and stitches the segments
/// of the case table into closed rings.
pub struct IsoRingBuilder {
    fragment_by_start: FxHashMap<u128, usize>,
    fragment_by_end: FxHashMap<u128, usize>,
    f: Slab<Fragment>,
    dx: u32,
    dy: u32,
    is_empty: bool,
    ids: Ghost<Map<usize, nat>>,
    model: Ghost<StoreModel>,
}

impl IsoRingBuilder {
    pub closed spec fn spec_dx(&self) -> int {
        self.dx as int
    }

    pub closed spec fn spec_dy(&self) -> int {
        self.dy as int
    }

    pub open spec fn fragment_ok(fr: Fragment, dx: int, dy: int) -> bool {
        &&& fr.ring@.len() >= 2
        &&& forall|i: int| 0 <= i < fr.ring@.len() ==> in_box(#[trigger] fr.ring@[i], dx, dy)
        &&& point_key(fr.ring@[0], dx) == fr.start
        &&& point_key(fr.ring@[fr.ring@.len() - 1], dx) == fr.end
    }

    /// Every endpoint entry names a live fragment with that end, and every
    /// live fragment is well formed.
    pub closed spec fn wf(&self) -> bool {
        let frags = slab_entries(self.f);
        &&& links_ok(self.fragment_by_start@, self.fragment_by_end@, frags)
        &&& forall|id: usize|
            #[trigger] frags.contains_key(id) ==> Self::fragment_ok(
                frags[id],
                self.dx as int,
                self.dy as int,
            )
        &&& self.is_empty ==> self.holds_nothing()
    }

    /// The store is the model store `self.model`, whose closed rings are
    /// those of `result`.
    pub closed spec fn refines(&self, result: Seq<Vec<Pt>>) -> bool {
        &&& refines_parts(
            self.fragment_by_start@,
            self.fragment_by_end@,
            slab_entries(self.f),
            self.ids@,
            self.model@,
        )
        &&& views(result) == self.model@.rings
    }

    /// No fragment is open.
    pub closed spec fn holds_nothing(&self) -> bool {
        &&& slab_entries(self.f).dom() == Set::<usize>::empty()
        &&& self.fragment_by_start@.dom() == Set::<u128>::empty()
        &&& self.fragment_by_end@.dom() == Set::<u128>::empty()
    }

    /// Every open fragment is made of segments of the grid under `mask`.
    pub closed spec fn on_grid(&self, mask: Seq<bool>) -> bool {
        let frags = slab_entries(self.f);
        forall|id: usize|
            #[trigger] frags.contains_key(id) ==> edges_on_grid(
                frags[id].ring@,
                mask,
                self.dx as int,
                self.dy as int,
            )
    }

    /// Constructs a builder for a grid of `dx` columns and `dy` rows.
    pub fn new(dx: u32, dy: u32) -> (b: Self)
        ensures
            b.wf(),
            b.holds_nothing(),
            b.spec_dx() == dx,
            b.spec_dy() == dy,
    {
        IsoRingBuilder {
            fragment_by_start: key_map_new(),
            fragment_by_end: key_map_new(),
            f: slab_new(),
            dx,
            dy,
            is_empty: true,
            ids: Ghost(Map::empty()),
            model: Ghost(empty_store()),
        }
    }

    /// Discards every open fragment.
    pub fn clear(&mut self)
        ensures
            final(self).wf(),
            final(self).holds_nothing(),
            final(self).spec_dx() == old(self).spec_dx(),
            final(self).spec_dy() == old(self).spec_dy(),
    {
        slab_clear(&mut self.f);
        key_map_clear(&mut self.fragment_by_end);
        key_map_clear(&mut self.fragment_by_start);
        self.is_empty = true;
        self.ids = Ghost(Map::empty());
        self.model = Ghost(empty_store());
    }

    fn index(&self, p: Pt) -> (k: u128)
        requires
            in_box(p, self.dx as int, self.dy as int),
        ensures
            k == point_key(p, self.dx as int),
    {
        let w: u128 = 2 * (self.dx as u128) + 3;
        let a: u128 = (p.x + 1) as u128;
        let b: u128 = (p.y + 1) as u128;
        proof {
            assert(b * w <= 0x2_0000_0003 * 0x2_0000_0003) by (nonlinear_arith)
                requires
                    b <= 0x2_0000_0003,
                    w <= 0x2_0000_0003,
            ;
        }
        a + b * w
    }

    /// Stitches the segment from `start` to `end` onto the open fragments; a
    /// fragment whose two ends meet leaves the store for `result`.
    #[verifier::rlimit(60)]
    #[verifier::spinoff_prover]
    fn stitch(&mut self, start: Pt, end: Pt, result: &mut Vec<Vec<Pt>>, Ghost(mask): Ghost<Seq<bool>>)
        requires
            old(self).wf(),
            old(self).on_grid(mask),
            !old(self).is_empty,
            in_box(start, old(self).dx as int, old(self).dy as int),
            in_box(end, old(self).dx as int, old(self).dy as int),
            grid_segment(mask, old(self).dx as int, old(self).dy as int, start, end),
            all_closed(old(result)@, old(self).dx as int, old(self).dy as int),
            all_on_grid(old(result)@, mask, old(self).dx as int, old(self).dy as int),
            old(self).refines(old(result)@),
        ensures
            final(self).refines(final(result)@),
            final(self).model@ == stitch_model(old(self).model@, start, end, old(self).dx as int),
            final(self).wf(),
            final(self).on_grid(mask),
            !final(self).is_empty,
            final(self).dx == old(self).dx,
            final(self).dy == old(self).dy,
            all_closed(final(result)@, old(self).dx as int, old(self).dy as int),
            all_on_grid(final(result)@, mask, old(self).dx as int, old(self).dy as int),
    {
        let ghost dx = self.dx as int;
        let ghost dy = self.dy as int;
        let start_index = self.index(start);
        let end_index = self.index(end);
        let ghost bs0 = self.fragment_by_start@;
        let ghost be0 = self.fragment_by_end@;
        let ghost fr0 = slab_entries(self.f);
        let ghost ids0 = self.ids@;
        let ghost st0 = self.model@;
        let ghost res0 = result@;
        assert(key_of(start, dx) == start_index && key_of(end, dx) == end_index);
        if key_map_contains(&self.fragment_by_end, start_index) {
            if key_map_contains(&self.fragment_by_start, end_index) {
                let f_ix = key_map_remove(&mut self.fragment_by_end, start_index).unwrap();
                let g_ix = key_map_remove(&mut self.fragment_by_start, end_index).unwrap();
                if f_ix == g_ix {
                    let mut f = slab_remove(&mut self.f, f_ix);
                    let ghost fr = f.ring@;
                    proof {
                        lemma_key_injective(end, fr[0], dx, dy);
                        lemma_key_injective(start, fr[fr.len() - 1], dx, dy);
                    }
                    f.ring.push(end);
                    proof {
                        assert forall|i: int| 0 <= i < f.ring@.len() - 1 implies grid_segment(mask, dx, dy, #[trigger] f.ring@[i], f.ring@[i + 1]) by {
                            if i < fr.len() - 1 {
                                assert(f.ring@[i] == fr[i] && f.ring@[i + 1] == fr[i + 1]);
                            }
                        }
                    }
                    result.push(f.ring);
                    self.ids = Ghost(ids0.remove(f_ix));
                    self.model = Ghost(stitch_model(st0, start, end, dx));
                    proof {
                        lemma_refine_close(bs0, be0, fr0, ids0, st0, start_index, end_index, f_ix, self.model@.rings);
                        assert(views(result@) =~= views(res0).push(fr0[f_ix as usize].ring@.push(end)));
                        assert(slab_entries(self.f) == fr0.remove(f_ix));
                        assert(self.fragment_by_start@.dom() =~= old(self).fragment_by_start@.dom().remove(end_index));
                        assert(self.fragment_by_end@.dom() =~= old(self).fragment_by_end@.dom().remove(start_index));
                        assert forall|i: int| 0 <= i < result@.len() implies closed_ring(#[trigger] result@[i]@, dx, dy) && edges_on_grid(result@[i]@, mask, dx, dy) by {
                            if i < result@.len() - 1 {
                                assert(result@[i] == old(result)@[i]);
                            }
                        }
                    }
                } else {
                    let mut f = slab_remove(&mut self.f, f_ix);
                    let mut g = slab_remove(&mut self.f, g_ix);
                    let ghost fr = f.ring@;
                    let ghost gr = g.ring@;
                    proof {
                        lemma_key_injective(start, fr[fr.len() - 1], dx, dy);
                        lemma_key_injective(end, gr[0], dx, dy);
                    }
                    f.ring.append(&mut g.ring);
                    let fs = f.start;
                    let ge = g.end;
                    proof {
                        assert(f.ring@ == fr + gr);
                        assert(f.ring@[0] == fr[0]);
                        assert(f.ring@[f.ring@.len() - 1] == gr[gr.len() - 1]);
                        assert forall|i: int| 0 <= i < f.ring@.len() implies in_box(#[trigger] f.ring@[i], dx, dy) by {
                            if i < fr.len() {
                                assert(f.ring@[i] == fr[i]);
                            } else {
                                assert(f.ring@[i] == gr[i - fr.len()]);
                            }
                        }
                        assert forall|i: int| 0 <= i < f.ring@.len() - 1 implies grid_segment(mask, dx, dy, #[trigger] f.ring@[i], f.ring@[i + 1]) by {
                            if i < fr.len() - 1 {
                                assert(f.ring@[i] == fr[i] && f.ring@[i + 1] == fr[i + 1]);
                            } else if i == fr.len() - 1 {
                                assert(f.ring@[i] == start && f.ring@[i + 1] == end);
                            } else {
                                assert(f.ring@[i] == gr[i - fr.len()] && f.ring@[i + 1] == gr[i + 1 - fr.len()]);
                            }
                        }
                    }
                    let ix = slab_insert(&mut self.f, Fragment { start: fs, end: ge, ring: f.ring });
                    key_map_insert(&mut self.fragment_by_start, fs, ix);
                    key_map_insert(&mut self.fragment_by_end, ge, ix);
                    self.ids = Ghost(ids0.remove(f_ix).remove(g_ix).insert(ix, st0.next));
                    self.model = Ghost(stitch_model(st0, start, end, dx));
                    proof {
                        let merged = slab_entries(self.f)[ix];
                        lemma_refine_merge(bs0, be0, fr0, ids0, st0, start_index, end_index, f_ix, g_ix, ix, merged);
                        assert(slab_entries(self.f) == fr0.remove(f_ix).remove(g_ix).insert(ix, merged));
                        assert(ids0[f_ix] != ids0[g_ix]);
                    }
                }
            } else {
                let f_ix = key_map_remove(&mut self.fragment_by_end, start_index).unwrap();
                let mut f = slab_replace(&mut self.f, f_ix, Fragment { start: 0, end: 0, ring: Vec::new() });
                let ghost fr = f.ring@;
                proof {
                    lemma_key_injective(start, fr[fr.len() - 1], dx, dy);
                }
                f.ring.push(end);
                f.end = end_index;
                proof {
                    assert(f.ring@[0] == fr[0]);
                    assert forall|i: int| 0 <= i < f.ring@.len() implies in_box(#[trigger] f.ring@[i], dx, dy) by {
                        if i < fr.len() {
                            assert(f.ring@[i] == fr[i]);
                        }
                    }
                    assert forall|i: int| 0 <= i < f.ring@.len() - 1 implies grid_segment(mask, dx, dy, #[trigger] f.ring@[i], f.ring@[i + 1]) by {
                        if i < fr.len() - 1 {
                            assert(f.ring@[i] == fr[i] && f.ring@[i + 1] == fr[i + 1]);
                        }
                    }
                }
                slab_replace(&mut self.f, f_ix, f);
                key_map_insert(&mut self.fragment_by_end, end_index, f_ix);
                self.model = Ghost(stitch_model(st0, start, end, dx));
                proof {
                    let grown = slab_entries(self.f)[f_ix];
                    lemma_refine_extend_end(bs0, be0, fr0, ids0, st0, start_index, end_index, f_ix, grown);
                    assert(slab_entries(self.f) =~= fr0.insert(f_ix, grown));
                    assert(grown.ring@ == fr0[f_ix].ring@.push(end));
                }
            }
        } else if key_map_contains(&self.fragment_by_start, end_index) {
            let f_ix = key_map_remove(&mut self.fragment_by_start, end_index).unwrap();
            let mut f = slab_replace(&mut self.f, f_ix, Fragment { start: 0, end: 0, ring: Vec::new() });
            let ghost fr = f.ring@;
            proof {
                lemma_key_injective(end, fr[0], dx, dy);
            }
            f.ring.insert(0, start);
            f.start = start_index;
            proof {
                assert(f.ring@[f.ring@.len() - 1] == fr[fr.len() - 1]);
                assert forall|i: int| 0 <= i < f.ring@.len() implies in_box(#[trigger] f.ring@[i], dx, dy) by {
                    if i > 0 {
                        assert(f.ring@[i] == fr[i - 1]);
                    }
                }
                assert forall|i: int| 0 <= i < f.ring@.len() - 1 implies grid_segment(mask, dx, dy, #[trigger] f.ring@[i], f.ring@[i + 1]) by {
                    if i > 0 {
                        assert(f.ring@[i] == fr[i - 1] && f.ring@[i + 1] == fr[i]);
                    } else {
                        assert(f.ring@[0] == start && f.ring@[1] == end);
                    }
                }
            }
            slab_replace(&mut self.f, f_ix, f);
            key_map_insert(&mut self.fragment_by_start, start_index, f_ix);
            self.model = Ghost(stitch_model(st0, start, end, dx));
            proof {
                let grown = slab_entries(self.f)[f_ix];
                lemma_refine_extend_start(bs0, be0, fr0, ids0, st0, start_index, end_index, f_ix, grown);
                assert(slab_entries(self.f) =~= fr0.insert(f_ix, grown));
                assert(grown.ring@ =~= seq![start] + fr0[f_ix].ring@);
            }
        } else {
            let ring = vec![start, end];
            proof {
                assert(ring@[0] == start && ring@[1] == end);
            }
            let ix = slab_insert(&mut self.f, Fragment { start: start_index, end: end_index, ring });
            key_map_insert(&mut self.fragment_by_start, start_index, ix);
            key_map_insert(&mut self.fragment_by_end, end_index, ix);
            self.ids = Ghost(ids0.insert(ix, st0.next));
            self.model = Ghost(stitch_model(st0, start, end, dx));
            proof {
                let fresh = slab_entries(self.f)[ix];
                lemma_refine_open(bs0, be0, fr0, ids0, st0, start_index, end_index, ix, fresh);
                assert(fresh.ring@ =~= seq![start, end]);
            }
        }
    }

    /// Computes the closed rings around the samples set in `mask` (a sample
    /// is set when it is at or above the threshold), sweeping the cells in
    /// raster order, the row and column before the grid and the last ones
    /// included. Fails with `BadDimension` unless `mask` holds `dx * dy`
    /// samples. The rings are `sweep(mask)`: they depend on the mask and the
    /// grid size alone, not on what the builder computed before.
    pub fn compute(&mut self, mask: &Vec<bool>) -> (r: Result<Vec<Vec<Pt>>, ContourError>)
        requires
            old(self).wf(),
        ensures
            final(self).wf(),
            final(self).spec_dx() == old(self).spec_dx(),
            final(self).spec_dy() == old(self).spec_dy(),
            (mask@.len() == old(self).spec_dx() * old(self).spec_dy()) <==> r is Ok,
            r is Err ==> r == Err::<Vec<Vec<Pt>>, ContourError>(ContourError::BadDimension),
            r matches Ok(rings) ==> all_closed(
                rings@,
                old(self).spec_dx(),
                old(self).spec_dy(),
            ) && all_on_grid(rings@, mask@, old(self).spec_dx(), old(self).spec_dy()) && views(
                rings@,
            ) == sweep(mask@, old(self).spec_dx(), old(self).spec_dy()),
    {
        let dx = self.dx;
        let dy = self.dy;
        proof {
            assert((dx as int) * (dy as int) <= 0xFFFF_FFFF * 0xFFFF_FFFF) by (nonlinear_arith)
                requires
                    0 <= dx <= 0xFFFF_FFFF,
                    0 <= dy <= 0xFFFF_FFFF,
            ;
        }
        if mask.len() as u64 != (dx as u64) * (dy as u64) {
            return Err(ContourError::BadDimension);
        }
        if !self.is_empty {
            self.clear();
        }
        self.is_empty = false;
        self.ids = Ghost(Map::empty());
        self.model = Ghost(empty_store());
        let ghost m = mask@;
        let ghost target = run_rows(empty_store(), m, dx as int, dy as int, -1);
        assert(self.on_grid(m));
        let mut result: Vec<Vec<Pt>> = Vec::new();
        assert(views(result@) =~= seq![]);
        assert(self.ids@.dom() =~= slab_entries(self.f).dom());
        let mut y: i64 = -1;
        while y < dy as i64
            invariant
                self.wf(),
                self.on_grid(m),
                self.refines(result@),
                run_rows(self.model@, m, dx as int, dy as int, y as int) == target,
                !self.is_empty,
                m == mask@,
                all_on_grid(result@, m, dx as int, dy as int),
                self.dx == dx,
                self.dy == dy,
                -1 <= y <= dy,
                mask@.len() == dx * dy,
                all_closed(result@, dx as int, dy as int),
            decreases dy - y,
        {
            let mut x: i64 = -1;
            while x < dx as i64
                invariant
                    self.wf(),
                    self.on_grid(m),
                    self.refines(result@),
                    run_rows(
                        run_row(self.model@, m, dx as int, dy as int, x as int, y as int),
                        m,
                        dx as int,
                        dy as int,
                        y + 1,
                    ) == target,
                    !self.is_empty,
                    m == mask@,
                    all_on_grid(result@, m, dx as int, dy as int),
                    self.dx == dx,
                    self.dy == dy,
                    -1 <= x <= dx,
                    -1 <= y < dy,
                    mask@.len() == dx * dy,
                    all_closed(result@, dx as int, dy as int),
                decreases dx - x,
            {
                let code = cell_code_of(mask, dx, dy, x, y);
                let segs = case_segments(code);
                let mut k: usize = 0;
                while k < segs.len()
                    invariant
                        self.wf(),
                        self.on_grid(m),
                        self.refines(result@),
                        0 <= k <= segs@.len(),
                        run_rows(
                            run_row(
                                run_cell(self.model@, m, dx as int, dy as int, x as int, y as int, k as int),
                                m,
                                dx as int,
                                dy as int,
                                x + 1,
                                y as int,
                            ),
                            m,
                            dx as int,
                            dy as int,
                            y + 1,
                        ) == target,
                        !self.is_empty,
                        m == mask@,
                        mask@.len() == dx * dy,
                        segs@ == case_table(cell_code(m, dx as int, dy as int, x as int, y as int)),
                        all_on_grid(result@, m, dx as int, dy as int),
                        self.dx == dx,
                        self.dy == dy,
                        -1 <= x < dx,
                        -1 <= y < dy,
                        segs@.len() <= 2,
                        forall|i: int|
                            0 <= i < segs@.len() ==> offset_ok(#[trigger] segs@[i].start)
                                && offset_ok(segs@[i].end),
                        all_closed(result@, dx as int, dy as int),
                    decreases segs@.len() - k,
                {
                    let sg: Segment = segs[k];
                    let start = Pt { x: 2 * x + sg.start.x, y: 2 * y + sg.start.y };
                    let end = Pt { x: 2 * x + sg.end.x, y: 2 * y + sg.end.y };
                    proof {
                        assert(cell_segment(m, dx as int, dy as int, x as int, y as int, k as int)
                            == (Segment { start, end }));
                    }
                    self.stitch(start, end, &mut result, Ghost(m));
                    k = k + 1;
                }
                x = x + 1;
            }
            y = y + 1;
        }
        Ok(result)
    }
}

fn corner_of(mask: &Vec<bool>, dx: u32, dy: u32, cx: i64, cy: i64) -> (b: bool)
    requires
        mask@.len() == dx * dy,
    ensures
        b == corner(mask@, dx as int, dy as int, cx as int, cy as int),
{
    let n = mask.len();
    if 0 <= cx && cx < dx as i64 && 0 <= cy && cy < dy as i64 {
        proof {
            assert(cy * dx + cx < dx * dy) by (nonlinear_arith)
                requires
                    0 <= cx < dx,
                    0 <= cy < dy,
            ;
            assert(cy * dx >= 0) by (nonlinear_arith)
                requires
                    0 <= cy,
                    0 <= dx,
            ;
        }
        let i = (cy as usize) * (dx as usize) + (cx as usize);
        mask[i]
    } else {
        false
    }
}

fn cell_code_of(mask: &Vec<bool>, dx: u32, dy: u32, x: i64, y: i64) -> (code: u8)
    requires
        mask@.len() == dx * dy,
        -1 <= x < dx,
        -1 <= y < dy,
    ensures
        code == cell_code(mask@, dx as int, dy as int, x as int, y as int),
        code < 16,
{
    let t0: u8 = if corner_of(mask, dx, dy, x, y + 1) { 1 } else { 0 };
    let t1: u8 = if corner_of(mask, dx, dy, x + 1, y + 1) { 2 } else { 0 };
    let t2: u8 = if corner_of(mask, dx, dy, x + 1, y) { 4 } else { 0 };
    let t3: u8 = if corner_of(mask, dx, dy, x, y) { 8 } else { 0 };
    t0 + t1 + t2 + t3
}

/// Computes the closed rings of one threshold, with no hole assignment and no
/// smoothing: `mask` tells, sample by sample in row-major order, whether the
/// sample is at or above the threshold. The rings are `sweep(mask)`.
pub fn contour_rings(mask: &Vec<bool>, dx: u32, dy: u32) -> (r: Result<Vec<Vec<Pt>>, ContourError>)
    ensures
        (mask@.len() == dx * dy) <==> r is Ok,
        r is Err ==> r == Err::<Vec<Vec<Pt>>, ContourError>(ContourError::BadDimension),
        r matches Ok(rings) ==> all_closed(rings@, dx as int, dy as int) && all_on_grid(
            rings@,
            mask@,
            dx as int,
            dy as int,
        ) && views(rings@) == sweep(mask@, dx as int, dy as int),
{
    let mut isoring = IsoRingBuilder::new(dx, dy);
    isoring.compute(mask)
}

} // verus!
