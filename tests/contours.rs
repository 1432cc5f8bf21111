use contour::builder::{ContourBuilder, Interp};
use contour::Pt;

fn masks(values: &[f64], thresholds: &[f64]) -> Vec<Vec<bool>> {
    thresholds
        .iter()
        .map(|t| values.iter().map(|v| *v >= *t).collect())
        .collect()
}

fn interp(c: f64, values: &[f64], s: Interp, t: f64) -> f64 {
    let v0 = values[s.from as usize];
    let v1 = values[s.to as usize];
    if v0 == v1 {
        c
    } else {
        c + (t - v0) / (v1 - v0) - 0.5
    }
}

fn ring_coords(c: &ContourBuilder, ring: &Vec<Pt>, values: &[f64], t: f64) -> Vec<Vec<f64>> {
    let plan = if c.smooth() { Some(c.smoothing(ring)) } else { None };
    ring.iter()
        .enumerate()
        .map(|(i, p)| {
            let mut x = p.x as f64 / 2.0;
            let mut y = p.y as f64 / 2.0;
            if let Some(plan) = &plan {
                if let Some(s) = plan[i].x {
                    x = interp(x, values, s, t);
                }
                if let Some(s) = plan[i].y {
                    y = interp(y, values, s, t);
                }
            }
            vec![x, y]
        })
        .collect()
}

fn run(c: &ContourBuilder, values: &[f64], thresholds: &[f64]) -> Vec<Vec<Vec<Vec<Vec<f64>>>>> {
    let res = c.contours(&masks(values, thresholds)).unwrap();
    res.iter()
        .zip(thresholds)
        .map(|(polys, t)| {
            polys
                .iter()
                .map(|p| p.iter().map(|r| ring_coords(c, r, values, *t)).collect())
                .collect()
        })
        .collect()
}

#[test]
fn test_empty_polygons() {
    let c = ContourBuilder::new(10, 10, true);
    let res = run(&c, &[0.; 100], &[0.5]);
    assert_eq!(res.len(), 1);
    assert!(res[0].is_empty());
}

#[test]
fn test_simple_polygon() {
    let c = ContourBuilder::new(10, 10, true);
    let res = run(&c, &[
        0., 0., 0., 0., 0., 0., 0., 0., 0., 0.,
        0., 0., 0., 0., 0., 0., 0., 0., 0., 0.,
        0., 0., 0., 0., 0., 0., 0., 0., 0., 0.,
        0., 0., 0., 1., 1., 1., 0., 0., 0., 0.,
        0., 0., 0., 1., 1., 1., 0., 0., 0., 0.,
        0., 0., 0., 1., 1., 1., 0., 0., 0., 0.,
        0., 0., 0., 1., 1., 1., 0., 0., 0., 0.,
        0., 0., 0., 1., 1., 1., 0., 0., 0., 0.,
        0., 0., 0., 0., 0., 0., 0., 0., 0., 0.,
        0., 0., 0., 0., 0., 0., 0., 0., 0., 0.
    ], &[0.5]);
    assert_eq!(
        res[0],
        vec![vec![vec![
            vec![6., 7.5], vec![6., 6.5], vec![6., 5.5], vec![6., 4.5],
            vec![6., 3.5], vec![5.5, 3.], vec![4.5, 3.], vec![3.5, 3.],
            vec![3., 3.5], vec![3., 4.5], vec![3., 5.5], vec![3., 6.5],
            vec![3., 7.5], vec![3.5, 8.], vec![4.5, 8.], vec![5.5, 8.],
            vec![6., 7.5]]]]);
}

#[test]
fn test_polygon_with_hole() {
    let c = ContourBuilder::new(10, 10, true);
    let res = run(&c, &[
        0., 0., 0., 0., 0., 0., 0., 0., 0., 0.,
        0., 0., 0., 0., 0., 0., 0., 0., 0., 0.,
        0., 0., 0., 0., 0., 0., 0., 0., 0., 0.,
        0., 0., 0., 1., 1., 1., 0., 0., 0., 0.,
        0., 0., 0., 1., 0., 1., 0., 0., 0., 0.,
        0., 0., 0., 1., 0., 1., 0., 0., 0., 0.,
        0., 0., 0., 1., 0., 1., 0., 0., 0., 0.,
        0., 0., 0., 1., 1., 1., 0., 0., 0., 0.,
        0., 0., 0., 0., 0., 0., 0., 0., 0., 0.,
        0., 0., 0., 0., 0., 0., 0., 0., 0., 0.
    ], &[0.5]);
    assert_eq!(
        res[0],
        vec![
            vec![
                vec![
                    vec![6., 7.5], vec![6., 6.5], vec![6., 5.5],
                    vec![6., 4.5], vec![6., 3.5], vec![5.5, 3.],
                    vec![4.5, 3.], vec![3.5, 3.], vec![3., 3.5],
                    vec![3., 4.5], vec![3., 5.5], vec![3., 6.5],
                    vec![3., 7.5], vec![3.5, 8.], vec![4.5, 8.],
                    vec![5.5, 8.], vec![6., 7.5],
                ],
                vec![
                    vec![4.5, 7.], vec![4., 6.5], vec![4., 5.5],
                    vec![4., 4.5], vec![4.5, 4.], vec![5., 4.5],
                    vec![5., 5.5], vec![5., 6.5], vec![4.5, 7.],
                ],
            ],
        ],
    );
}

#[test]
fn test_multipolygon() {
    let c = ContourBuilder::new(10, 10, true);
    let res = run(&c, &[
        0., 0., 0., 0., 0., 0., 0., 0., 0., 0.,
        0., 0., 0., 0., 0., 0., 0., 0., 0., 0.,
        0., 0., 0., 0., 0., 0., 0., 0., 0., 0.,
        0., 0., 0., 1., 1., 0., 1., 0., 0., 0.,
        0., 0., 0., 1., 1., 0., 1., 0., 0., 0.,
        0., 0., 0., 1., 1., 0., 1., 0., 0., 0.,
        0., 0., 0., 1., 1., 0., 1., 0., 0., 0.,
        0., 0., 0., 1., 1., 0., 1., 0., 0., 0.,
        0., 0., 0., 0., 0., 0., 0., 0., 0., 0.,
        0., 0., 0., 0., 0., 0., 0., 0., 0., 0.
    ], &[0.5]);
    assert_eq!(
        res[0],
        vec![
            vec![
                vec![
                    vec![5., 7.5], vec![5., 6.5], vec![5., 5.5],
                    vec![5., 4.5], vec![5., 3.5], vec![4.5, 3.],
                    vec![3.5, 3.], vec![3., 3.5], vec![3., 4.5],
                    vec![3., 5.5], vec![3., 6.5], vec![3., 7.5],
                    vec![3.5, 8.], vec![4.5, 8.], vec![5., 7.5],
                ],
            ],
            vec![
                vec![
                    vec![7., 7.5], vec![7., 6.5], vec![7., 5.5],
                    vec![7., 4.5], vec![7., 3.5], vec![6.5, 3.],
                    vec![6., 3.5], vec![6., 4.5], vec![6., 5.5],
                    vec![6., 6.5], vec![6., 7.5], vec![6.5, 8.], vec![7., 7.5],
                ],
            ],
        ]);
}

#[test]
fn test_multipolygon_with_hole() {
    let c = ContourBuilder::new(10, 10, true);
    let res = run(&c, &[
        0., 0., 0., 0., 0., 0., 0., 0., 0., 0.,
        0., 0., 0., 0., 0., 0., 0., 0., 0., 0.,
        0., 0., 0., 0., 0., 0., 0., 0., 0., 0.,
        0., 1., 1., 1., 0., 1., 1., 1., 0., 0.,
        0., 1., 0., 1., 0., 1., 0., 1., 0., 0.,
        0., 1., 1., 1., 0., 1., 1., 1., 0., 0.,
        0., 0., 0., 0., 0., 0., 0., 0., 0., 0.,
        0., 0., 0., 0., 0., 0., 0., 0., 0., 0.,
        0., 0., 0., 0., 0., 0., 0., 0., 0., 0.,
        0., 0., 0., 0., 0., 0., 0., 0., 0., 0.
    ], &[0.5]);
    assert_eq!(
        res[0],
        vec![
            vec![
                vec![
                    vec![4., 5.5], vec![4., 4.5], vec![4., 3.5],
                    vec![3.5, 3.], vec![2.5, 3.], vec![1.5, 3.],
                    vec![1., 3.5], vec![1., 4.5], vec![1., 5.5],
                    vec![1.5, 6.], vec![2.5, 6.], vec![3.5, 6.],
                    vec![4., 5.5],
                ],
                vec![
                    vec![2.5, 5.], vec![2., 4.5], vec![2.5, 4.],
                    vec![3., 4.5], vec![2.5, 5.],
                ],
            ],
            vec![
                vec![
                    vec![8., 5.5], vec![8., 4.5], vec![8., 3.5],
                    vec![7.5, 3.], vec![6.5, 3.], vec![5.5, 3.],
                    vec![5., 3.5], vec![5., 4.5], vec![5., 5.5],
                    vec![5.5, 6.], vec![6.5, 6.], vec![7.5, 6.], vec![8., 5.5],
                ],
                vec![
                    vec![6.5, 5.], vec![6., 4.5], vec![6.5, 4.],
                    vec![7., 4.5], vec![6.5, 5.],
                ],
            ],
        ]);
}

#[test]
fn test_simple_polygon_no_smoothing() {
    let c = ContourBuilder::new(10, 10, false);
    let res = run(&c, &[
        0., 0., 0., 0., 0., 0., 0., 0., 0., 0.,
        0., 0., 0., 0., 0., 0., 0., 0., 0., 0.,
        0., 0., 0., 0., 0., 0., 0., 0., 0., 0.,
        0., 0., 0., 2., 1., 2., 0., 0., 0., 0.,
        0., 0., 0., 2., 2., 2., 0., 0., 0., 0.,
        0., 0., 0., 1., 2., 1., 0., 0., 0., 0.,
        0., 0., 0., 2., 2., 2., 0., 0., 0., 0.,
        0., 0., 0., 2., 1., 2., 0., 0., 0., 0.,
        0., 0., 0., 0., 0., 0., 0., 0., 0., 0.,
        0., 0., 0., 0., 0., 0., 0., 0., 0., 0.
    ], &[0.5]);
    assert_eq!(
        res[0],
        vec![
            vec![
                vec![
                    vec![6., 7.5], vec![6., 6.5], vec![6., 5.5],
                    vec![6., 4.5], vec![6., 3.5], vec![5.5, 3.],
                    vec![4.5, 3.], vec![3.5, 3.], vec![3., 3.5],
                    vec![3., 4.5], vec![3., 5.5], vec![3., 6.5],
                    vec![3., 7.5], vec![3.5, 8.], vec![4.5, 8.],
                    vec![5.5, 8.], vec![6., 7.5],
                ]
            ]
        ]);
}

#[test]
fn test_multiple_thresholds() {
    let c = ContourBuilder::new(10, 10, true);
    let res = run(&c, &[
        0., 0., 0., 0., 0., 0., 0., 0., 0., 0.,
        0., 0., 0., 0., 0., 0., 0., 0., 0., 0.,
        0., 0., 0., 0., 0., 0., 0., 0., 0., 0.,
        0., 0., 0., 1., 1., 1., 1., 0., 0., 0.,
        0., 0., 0., 1., 1., 1., 1., 0., 0., 0.,
        0., 0., 0., 1., 2., 2., 1., 0., 0., 0.,
        0., 0., 0., 1., 1., 2., 1., 0., 0., 0.,
        0., 0., 0., 1., 1., 1., 1., 0., 0., 0.,
        0., 0., 0., 1., 1., 1., 1., 0., 0., 0.,
        0., 0., 0., 0., 0., 0., 0., 0., 0., 0.
    ], &[0.5, 1.5]);
    assert_eq!(
        res[0],
        vec![vec![vec![
            vec![7.,8.5],vec![7.,7.5],vec![7.,6.5],vec![7.,5.5],vec![7.,4.5],
            vec![7.,3.5],vec![6.5,3.],vec![5.5,3.],vec![4.5,3.],vec![3.5,3.],
            vec![3.,3.5],vec![3.,4.5],vec![3.,5.5],vec![3.,6.5],vec![3.,7.5],
            vec![3.,8.5],vec![3.5,9.],vec![4.5,9.],vec![5.5,9.],vec![6.5,9.],
            vec![7.,8.5]]
        ]
    ]);
    assert_eq!(
        res[1],
        vec![vec![vec![
            vec![6.,6.5],vec![6.,5.5],vec![5.5,5.],vec![4.5,5.],
            vec![4.,5.5],vec![4.5,6.],vec![5.,6.5],vec![5.5,7.],
            vec![6.,6.5]
        ]]
    ]);
}
