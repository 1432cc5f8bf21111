//! The marching-squares case table.
use vstd::prelude::*;
use crate::geometry::Pt;

verus! {

/// A directed segment: the inside of the iso-region lies on one fixed side.
#[derive(Clone, Copy, Debug, PartialEq, Eq, Structural)]
pub struct Segment {
    pub start: Pt,
    pub end: Pt,
}

pub open spec fn seg(sx: i64, sy: i64, ex: i64, ey: i64) -> Segment {
    Segment { start: Pt { x: sx, y: sy }, end: Pt { x: ex, y: ey } }
}

/// Segments of a cell whose corners give `code` (bit 0: lower left, bit 1:
/// lower right, bit 2: upper right, bit 3: upper left, each set when the
/// sample is at or above the threshold). Offsets are in half units from the
/// cell's origin, each 1, 2 or 3.
pub open spec fn case_table(code: int) -> Seq<Segment> {
    if code == 1 {
        seq![seg(2, 3, 1, 2)]
    } else if code == 2 {
        seq![seg(3, 2, 2, 3)]
    } else if code == 3 {
        seq![seg(3, 2, 1, 2)]
    } else if code == 4 {
        seq![seg(2, 1, 3, 2)]
    } else if code == 5 {
        seq![seg(2, 3, 1, 2), seg(2, 1, 3, 2)]
    } else if code == 6 {
        seq![seg(2, 1, 2, 3)]
    } else if code == 7 {
        seq![seg(2, 1, 1, 2)]
    } else if code == 8 {
        seq![seg(1, 2, 2, 1)]
    } else if code == 9 {
        seq![seg(2, 3, 2, 1)]
    } else if code == 10 {
        seq![seg(1, 2, 2, 1), seg(3, 2, 2, 3)]
    } else if code == 11 {
        seq![seg(3, 2, 2, 1)]
    } else if code == 12 {
        seq![seg(1, 2, 3, 2)]
    } else if code == 13 {
        seq![seg(2, 3, 3, 2)]
    } else if code == 14 {
        seq![seg(1, 2, 2, 3)]
    } else {
        seq![]
    }
}

pub open spec fn offset_ok(p: Pt) -> bool {
    1 <= p.x <= 3 && 1 <= p.y <= 3
}

fn mk(sx: i64, sy: i64, ex: i64, ey: i64) -> (s: Segment)
    ensures
        s == seg(sx, sy, ex, ey),
{
    Segment { start: Pt { x: sx, y: sy }, end: Pt { x: ex, y: ey } }
}

/// The segments of `case_table(code)`.
pub fn case_segments(code: u8) -> (r: Vec<Segment>)
    requires
        code < 16,
    ensures
        r@ == case_table(code as int),
        forall|i: int|
            0 <= i < r@.len() ==> offset_ok(#[trigger] r@[i].start) && offset_ok(r@[i].end),
        r@.len() <= 2,
{
    let r = match code {
        1 => vec![mk(2, 3, 1, 2)],
        2 => vec![mk(3, 2, 2, 3)],
        3 => vec![mk(3, 2, 1, 2)],
        4 => vec![mk(2, 1, 3, 2)],
        5 => vec![mk(2, 3, 1, 2), mk(2, 1, 3, 2)],
        6 => vec![mk(2, 1, 2, 3)],
        7 => vec![mk(2, 1, 1, 2)],
        8 => vec![mk(1, 2, 2, 1)],
        9 => vec![mk(2, 3, 2, 1)],
        10 => vec![mk(1, 2, 2, 1), mk(3, 2, 2, 3)],
        11 => vec![mk(3, 2, 2, 1)],
        12 => vec![mk(1, 2, 3, 2)],
        13 => vec![mk(2, 3, 3, 2)],
        14 => vec![mk(1, 2, 2, 3)],
        _ => Vec::new(),
    };
    assert(r@ =~= case_table(code as int));
    r
}

} // verus!
