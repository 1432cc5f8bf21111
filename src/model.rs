//! The sweep as a mathematical function of the mask: a fragment store whose
//! ids are handed out in order, run over every segment of every cell.
use vstd::prelude::*;
use crate::cases::case_table;
use crate::geometry::Pt;
use crate::isoring::{cell_code, cell_segment, point_key};

verus! {

/// An open chain of the model store, with the keys of its two ends.
pub struct ChainModel {
    pub start: u128,
    pub end: u128,
    pub ring: Seq<Pt>,
}

/// The fragment store: chains by id, the ids of the chains by their start
/// and end keys, the next id to hand out, and the rings closed so far.
pub struct StoreModel {
    pub by_start: Map<u128, nat>,
    pub by_end: Map<u128, nat>,
    pub chains: Map<nat, ChainModel>,
    pub next: nat,
    pub rings: Seq<Seq<Pt>>,
}

pub open spec fn empty_store() -> StoreModel {
    StoreModel {
        by_start: Map::empty(),
        by_end: Map::empty(),
        chains: Map::empty(),
        next: 0,
        rings: seq![],
    }
}

pub open spec fn key_of(p: Pt, dx: int) -> u128 {
    point_key(p, dx) as u128
}

/// One stitching step: close the chain whose end meets the segment's start
/// and whose start meets its end, or merge the two chains that meet it, or
/// extend the chain that meets one of its ends, or open a new chain.
pub open spec fn stitch_model(st: StoreModel, start: Pt, end: Pt, dx: int) -> StoreModel {
    let sk = key_of(start, dx);
    let ek = key_of(end, dx);
    if st.by_end.contains_key(sk) {
        let f = st.by_end[sk];
        let cf = st.chains[f];
        if st.by_start.contains_key(ek) {
            let g = st.by_start[ek];
            let cg = st.chains[g];
            if f == g {
                StoreModel {
                    by_start: st.by_start.remove(ek),
                    by_end: st.by_end.remove(sk),
                    chains: st.chains.remove(f),
                    next: st.next,
                    rings: st.rings.push(cf.ring.push(end)),
                }
            } else {
                StoreModel {
                    by_start: st.by_start.remove(ek).insert(cf.start, st.next),
                    by_end: st.by_end.remove(sk).insert(cg.end, st.next),
                    chains: st.chains.remove(f).remove(g).insert(
                        st.next,
                        ChainModel { start: cf.start, end: cg.end, ring: cf.ring + cg.ring },
                    ),
                    next: st.next + 1,
                    rings: st.rings,
                }
            }
        } else {
            StoreModel {
                by_start: st.by_start,
                by_end: st.by_end.remove(sk).insert(ek, f),
                chains: st.chains.insert(
                    f,
                    ChainModel { start: cf.start, end: ek, ring: cf.ring.push(end) },
                ),
                next: st.next,
                rings: st.rings,
            }
        }
    } else if st.by_start.contains_key(ek) {
        let f = st.by_start[ek];
        let cf = st.chains[f];
        StoreModel {
            by_start: st.by_start.remove(ek).insert(sk, f),
            by_end: st.by_end,
            chains: st.chains.insert(
                f,
                ChainModel { start: sk, end: cf.end, ring: seq![start] + cf.ring },
            ),
            next: st.next,
            rings: st.rings,
        }
    } else {
        StoreModel {
            by_start: st.by_start.insert(sk, st.next),
            by_end: st.by_end.insert(ek, st.next),
            chains: st.chains.insert(
                st.next,
                ChainModel { start: sk, end: ek, ring: seq![start, end] },
            ),
            next: st.next + 1,
            rings: st.rings,
        }
    }
}

/// Stitches the segments of the cell at column `x`, row `y`, from the `k`-th on.
pub open spec fn run_cell(st: StoreModel, mask: Seq<bool>, dx: int, dy: int, x: int, y: int, k: int) -> StoreModel
    decreases case_table(cell_code(mask, dx, dy, x, y)).len() - k,
{
    if 0 <= k < case_table(cell_code(mask, dx, dy, x, y)).len() {
        let s = cell_segment(mask, dx, dy, x, y, k);
        run_cell(stitch_model(st, s.start, s.end, dx), mask, dx, dy, x, y, k + 1)
    } else {
        st
    }
}

/// Stitches the cells of row `y` from column `x` on.
pub open spec fn run_row(st: StoreModel, mask: Seq<bool>, dx: int, dy: int, x: int, y: int) -> StoreModel
    decreases dx - x,
{
    if x < dx {
        run_row(run_cell(st, mask, dx, dy, x, y, 0), mask, dx, dy, x + 1, y)
    } else {
        st
    }
}

/// Stitches the rows from row `y` on, each from the column before the grid.
pub open spec fn run_rows(st: StoreModel, mask: Seq<bool>, dx: int, dy: int, y: int) -> StoreModel
    decreases dy - y,
{
    if y < dy {
        run_rows(run_row(st, mask, dx, dy, -1, y), mask, dx, dy, y + 1)
    } else {
        st
    }
}

/// The rings of the sweep over the whole grid, the row and column before it
/// included, in the order they close.
pub open spec fn sweep(mask: Seq<bool>, dx: int, dy: int) -> Seq<Seq<Pt>> {
    run_rows(empty_store(), mask, dx, dy, -1).rings
}

} // verus!
