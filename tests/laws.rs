use contour::builder::{polygons_from_rings, ContourBuilder, Interp, Smoothing};
use contour::cases::{case_segments, Segment};
use contour::geometry::{area, contains, ring_contains};
use contour::isoring::contour_rings;
use contour::{ContourError, IsoRingBuilder, Pt};

fn pt(x: i64, y: i64) -> Pt {
    Pt { x, y }
}

fn ring(coords: &[(i64, i64)]) -> Vec<Pt> {
    coords.iter().map(|(x, y)| pt(*x, *y)).collect()
}

fn block_mask(dx: usize, dy: usize, cells: &[(usize, usize)]) -> Vec<bool> {
    let mut m = vec![false; dx * dy];
    for (x, y) in cells {
        m[y * dx + x] = true;
    }
    m
}

fn rect(x0: usize, x1: usize, y0: usize, y1: usize) -> Vec<(usize, usize)> {
    let mut v = Vec::new();
    for y in y0..y1 {
        for x in x0..x1 {
            v.push((x, y));
        }
    }
    v
}

#[test]
fn wrong_sample_count_is_reported() {
    let c = ContourBuilder::new(10, 10, false);
    assert_eq!(c.contours(&vec![vec![false; 99]]), Err(ContourError::BadDimension));
    assert_eq!(c.contours(&vec![vec![false; 100], vec![true; 101]]), Err(ContourError::BadDimension));
    assert_eq!(contour_rings(&vec![false; 3], 2, 2), Err(ContourError::BadDimension));
    let mut b = IsoRingBuilder::new(3, 3);
    assert_eq!(b.compute(&vec![true; 8]), Err(ContourError::BadDimension));
}

#[test]
fn right_sample_count_succeeds() {
    let c = ContourBuilder::new(10, 10, false);
    let r = c.contours(&vec![vec![false; 100], vec![true; 100]]).unwrap();
    assert_eq!(r.len(), 2);
    assert!(r[0].is_empty());
    assert_eq!(r[1].len(), 1);
}

#[test]
fn every_ring_is_closed() {
    let mut cells = rect(1, 4, 1, 4);
    cells.retain(|c| *c != (2, 2));
    cells.extend(rect(6, 8, 5, 9));
    cells.push((0, 9));
    let m = block_mask(10, 10, &cells);
    let rings = contour_rings(&m, 10, 10).unwrap();
    assert_eq!(rings.len(), 4);
    for r in &rings {
        assert!(r.len() >= 3);
        assert_eq!(r[0], r[r.len() - 1]);
    }
}

#[test]
fn single_sample_gives_a_diamond() {
    let rings = contour_rings(&vec![true], 1, 1).unwrap();
    assert_eq!(rings, vec![ring(&[(2, 1), (1, 0), (0, 1), (1, 2), (2, 1)])]);
}

#[test]
fn reversing_a_ring_negates_its_area() {
    let r = ring(&[(0, 0), (2, 0), (2, 2), (0, 2), (0, 0)]);
    let mut rev = r.clone();
    rev.reverse();
    assert_eq!(area(&r), -8);
    assert_eq!(area(&rev), 8);
}

#[test]
fn outer_rings_have_positive_area_and_holes_do_not() {
    let mut cells = rect(3, 6, 3, 8);
    cells.retain(|c| !(c.0 == 4 && (4..7).contains(&c.1)));
    let rings = contour_rings(&block_mask(10, 10, &cells), 10, 10).unwrap();
    assert_eq!(rings.len(), 2);
    let areas: Vec<i128> = rings.iter().map(|r| area(r)).collect();
    assert!(areas.iter().filter(|a| **a > 0).count() == 1);
    assert!(areas.iter().filter(|a| **a < 0).count() == 1);
}

#[test]
fn point_positions() {
    let square = ring(&[(0, 0), (4, 0), (4, 4), (0, 4), (0, 0)]);
    assert_eq!(ring_contains(&square, pt(1, 1)), 1);
    assert_eq!(ring_contains(&square, pt(5, 1)), -1);
    assert_eq!(ring_contains(&square, pt(2, 0)), 0);
    assert_eq!(ring_contains(&square, pt(4, 4)), 0);
    assert_eq!(ring_contains(&Vec::new(), pt(1, 1)), -1);
}

#[test]
fn hole_positions() {
    let square = ring(&[(0, 0), (8, 0), (8, 8), (0, 8), (0, 0)]);
    let inner = ring(&[(2, 2), (2, 4), (4, 4), (2, 2)]);
    let touching = ring(&[(0, 0), (2, 2), (0, 2), (0, 0)]);
    let outside = ring(&[(10, 10), (12, 10), (10, 12), (10, 10)]);
    assert_eq!(contains(&square, &inner), 1);
    assert_eq!(contains(&square, &touching), 1);
    assert_eq!(contains(&square, &outside), -1);
    assert_eq!(contains(&square, &ring(&[(0, 0), (8, 8)])), 0);
}

#[test]
fn case_table_entries() {
    assert!(case_segments(0).is_empty());
    assert!(case_segments(15).is_empty());
    assert_eq!(case_segments(1), vec![Segment { start: pt(2, 3), end: pt(1, 2) }]);
    assert_eq!(case_segments(5).len(), 2);
    assert_eq!(
        case_segments(10),
        vec![
            Segment { start: pt(1, 2), end: pt(2, 1) },
            Segment { start: pt(3, 2), end: pt(2, 3) },
        ]
    );
    for code in 1..15u8 {
        if code != 5 && code != 10 {
            assert_eq!(case_segments(code).len(), 1);
        }
    }
}

#[test]
fn running_twice_gives_the_same_polygons() {
    let mut cells = rect(1, 5, 1, 5);
    cells.retain(|c| *c != (2, 2));
    cells.extend(rect(6, 9, 6, 9));
    let m = block_mask(10, 10, &cells);
    let c = ContourBuilder::new(10, 10, false);
    let first = c.contours(&vec![m.clone(), m.clone()]).unwrap();
    let second = c.contours(&vec![m.clone(), m]).unwrap();
    assert_eq!(first, second);
    assert_eq!(first[0], first[1]);
}

#[test]
fn builder_reuse_forgets_earlier_fragments() {
    let m = block_mask(5, 5, &rect(1, 3, 1, 4));
    let mut b = IsoRingBuilder::new(5, 5);
    let first = b.compute(&m).unwrap();
    let second = b.compute(&m).unwrap();
    assert_eq!(first, second);
    b.clear();
    assert_eq!(b.compute(&m).unwrap(), first);
    assert_eq!(first, contour_rings(&m, 5, 5).unwrap());
}

#[test]
fn threshold_below_the_step_gives_one_plain_polygon() {
    let m = block_mask(10, 10, &rect(2, 8, 2, 8));
    let c = ContourBuilder::new(10, 10, false);
    let polys = c.contours(&vec![m]).unwrap();
    assert_eq!(polys[0].len(), 1);
    assert_eq!(polys[0][0].len(), 1);
}

#[test]
fn enclosed_lower_region_gives_one_hole() {
    let mut cells = rect(2, 8, 2, 8);
    cells.retain(|c| !((4..6).contains(&c.0) && (4..6).contains(&c.1)));
    let c = ContourBuilder::new(10, 10, false);
    let polys = c.contours(&vec![block_mask(10, 10, &cells)]).unwrap();
    assert_eq!(polys[0].len(), 1);
    assert_eq!(polys[0][0].len(), 2);
    assert_eq!(contains(&polys[0][0][0], &polys[0][0][1]), 1);
}

#[test]
fn disjoint_blocks_keep_their_own_holes() {
    let mut cells = rect(1, 4, 3, 6);
    cells.retain(|c| *c != (2, 4));
    cells.extend(rect(5, 8, 3, 6));
    let c = ContourBuilder::new(10, 10, false);
    let polys = c.contours(&vec![block_mask(10, 10, &cells)]).unwrap();
    assert_eq!(polys[0].len(), 2);
    assert_eq!(polys[0][0].len(), 2);
    assert_eq!(polys[0][1].len(), 1);
}

#[test]
fn unmatched_hole_is_dropped() {
    let outer = ring(&[(0, 0), (0, 4), (4, 4), (4, 0), (0, 0)]);
    let far_hole = ring(&[(10, 10), (12, 10), (12, 12), (10, 12), (10, 10)]);
    let near_hole = ring(&[(1, 1), (2, 1), (2, 2), (1, 2), (1, 1)]);
    assert!(area(&outer) > 0);
    assert!(area(&far_hole) <= 0);
    let ps = polygons_from_rings(&vec![far_hole, outer.clone(), near_hole.clone()]);
    assert_eq!(ps, vec![vec![outer, near_hole]]);
    assert!(polygons_from_rings(&Vec::new()).is_empty());
}

#[test]
fn smoothing_plan_of_points() {
    let c = ContourBuilder::new(10, 10, true);
    let plan = c.smoothing(&ring(&[(6, 7), (7, 6), (0, 7), (7, 0), (20, 7), (6, 6), (-1, 3)]));
    assert_eq!(plan[0], Smoothing { x: Some(Interp { from: 32, to: 33 }), y: None });
    assert_eq!(plan[1], Smoothing { x: None, y: Some(Interp { from: 23, to: 33 }) });
    assert_eq!(plan[2], Smoothing { x: None, y: None });
    assert_eq!(plan[3], Smoothing { x: None, y: None });
    assert_eq!(plan[4], Smoothing { x: None, y: None });
    assert_eq!(plan[5], Smoothing { x: Some(Interp { from: 32, to: 33 }), y: Some(Interp { from: 23, to: 33 }) });
    assert_eq!(plan[6], Smoothing { x: None, y: None });
    assert!(c.smooth());
    assert_eq!((c.dx(), c.dy()), (10, 10));
}

#[test]
fn smoothing_moves_interior_vertices_only() {
    let mut values = vec![0.0f64; 100];
    for (x, y) in rect(3, 6, 3, 8) {
        values[y * 10 + x] = 1.0;
    }
    for y in 0..10 {
        values[y * 10] = 1.0;
    }
    let threshold = 0.25;
    let m: Vec<bool> = values.iter().map(|v| *v >= threshold).collect();
    let c = ContourBuilder::new(10, 10, true);
    let polys = c.contours(&vec![m]).unwrap();
    let mut moved = 0;
    let mut boundary_kept = 0;
    for poly in &polys[0] {
        for r in poly {
            let plan = c.smoothing(r);
            for (p, s) in r.iter().zip(plan) {
                if p.x == 6 && p.y == 7 {
                    let Interp { from, to } = s.x.unwrap();
                    let (v0, v1) = (values[from as usize], values[to as usize]);
                    let x = 3.0 + (threshold - v0) / (v1 - v0) - 0.5;
                    assert_eq!(x, 2.75);
                    moved += 1;
                }
                if p.x == 0 {
                    assert_eq!(s.x, None);
                    boundary_kept += 1;
                }
            }
        }
    }
    assert!(moved >= 1);
    assert!(boundary_kept >= 1);
}

#[test]
fn contours_group_the_rings_of_the_sweep() {
    let mut cells = rect(1, 6, 1, 6);
    cells.retain(|c| *c != (3, 3));
    cells.extend(rect(7, 9, 2, 4));
    let m = block_mask(10, 10, &cells);
    let c = ContourBuilder::new(10, 10, false);
    let polys = c.contours(&vec![m.clone()]).unwrap();
    let rings = contour_rings(&m, 10, 10).unwrap();
    assert_eq!(polys[0], polygons_from_rings(&rings));
    assert_eq!(polys[0].len(), 2);
}
