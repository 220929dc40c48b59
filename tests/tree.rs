use rust_n_body::body::{Body, Source};
use rust_n_body::geometry::{Point, Quadrant};
use rust_n_body::tree::{InsertError, Quadtree, MAX_TOTAL_MASS};

fn body(id: u64, mass: u32, x: i64, y: i64) -> Body {
    Body::new(id, mass, Point::new(x, y))
}

fn tree_of(bodies: &Vec<Body>) -> Quadtree {
    let ps: Vec<Point> = bodies.iter().map(|b| b.pos).collect();
    let q = Quadrant::new_containing(&ps).unwrap();
    Quadtree::build(q, 1, bodies).unwrap()
}

/// Acceleration on a unit mass at `p` from the given sources, with G = 1.
fn accel(p: Point, sources: &[Source]) -> (f64, f64) {
    let mut a = (0.0, 0.0);
    for s in sources {
        let m = s.mass as f64;
        let dx = s.moment_x as f64 / m - p.x as f64;
        let dy = s.moment_y as f64 / m - p.y as f64;
        let d = (dx * dx + dy * dy).sqrt();
        a.0 += m * dx / (d * d * d);
        a.1 += m * dy / (d * d * d);
    }
    a
}

fn sorted(mut v: Vec<Source>) -> Vec<(u64, i128, i128)> {
    let mut r: Vec<(u64, i128, i128)> = v.drain(..).map(|s| (s.mass, s.moment_x, s.moment_y)).collect();
    r.sort();
    r
}

#[test]
fn insert_reports_each_error() {
    let mut t = Quadtree::new(Quadrant::new(Point::new(0, 0), 16).unwrap(), 1);
    assert_eq!(t.insert(body(1, 0, 0, 0)), Err(InsertError::ZeroMass));
    assert_eq!(t.insert(body(1, 5, 8, 0)), Err(InsertError::OutsideRoot));
    assert_eq!(t.insert(body(1, 5, 0, -9)), Err(InsertError::OutsideRoot));
    assert!(t.quadrants().is_empty());
    assert_eq!(t.insert(body(1, 5, -8, 7)), Ok(()));
    assert_eq!(t.aggregate(), Source { mass: 5, moment_x: -40, moment_y: 35 });
}

#[test]
fn insert_rejects_mass_overflow() {
    // with min_len equal to the side, every body stays in the root leaf
    let mut t = Quadtree::new(Quadrant::new(Point::new(0, 0), 64).unwrap(), 64);
    for i in 0..256u64 {
        assert_eq!(t.insert(body(i, u32::MAX, 1, 1)), Ok(()));
    }
    assert_eq!(t.aggregate().mass, MAX_TOTAL_MASS - 256);
    let before = t.aggregate();
    assert_eq!(t.insert(body(300, 257, 1, 1)), Err(InsertError::MassOverflow));
    assert_eq!(t.aggregate(), before);
    assert_eq!(t.insert(body(301, 256, 1, 1)), Ok(()));
    assert_eq!(t.aggregate().mass, MAX_TOTAL_MASS);
    assert_eq!(t.insert(body(302, 1, 1, 1)), Err(InsertError::MassOverflow));
}

#[test]
fn aggregate_is_exact_mass_and_moments() {
    let bodies = vec![body(1, 2, 10, -4), body(2, 3, -6, 8), body(3, 5, 0, 0)];
    let t = tree_of(&bodies);
    let a = t.aggregate();
    assert_eq!(a.mass, 10);
    assert_eq!(a.moment_x, 2 * 10 + 3 * -6);
    assert_eq!(a.moment_y, 2 * -4 + 3 * 8);
}

#[test]
fn aggregate_does_not_depend_on_insertion_order() {
    let a = vec![body(1, 7, 100, 3), body(2, 1, -50, 40), body(3, 4, 12, -90), body(4, 9, 12, -91)];
    let mut b = a.clone();
    b.reverse();
    let mut c = a.clone();
    c.swap(0, 2);
    let q = Quadrant::new_containing(&a.iter().map(|x| x.pos).collect()).unwrap();
    let ta = Quadtree::build(q, 1, &a).unwrap();
    let tb = Quadtree::build(q, 1, &b).unwrap();
    let tc = Quadtree::build(q, 1, &c).unwrap();
    assert_eq!(ta.aggregate(), tb.aggregate());
    assert_eq!(ta.aggregate(), tc.aggregate());
    assert_eq!(ta.aggregate().mass, 21);
    assert_eq!(ta.aggregate().moment_x, 7 * 100 - 50 + 4 * 12 + 9 * 12);
    assert_eq!(ta.aggregate().moment_y, 7 * 3 + 40 - 4 * 90 - 9 * 91);
}

#[test]
fn build_stops_at_first_bad_body() {
    let q = Quadrant::new(Point::new(0, 0), 16).unwrap();
    let bodies = vec![body(1, 1, 0, 0), body(2, 1, 100, 0), body(3, 0, 0, 0)];
    assert_eq!(Quadtree::build(q, 1, &bodies).err(), Some(InsertError::OutsideRoot));
    let bodies = vec![body(1, 1, 0, 0), body(3, 0, 0, 0), body(2, 1, 100, 0)];
    assert_eq!(Quadtree::build(q, 1, &bodies).err(), Some(InsertError::ZeroMass));
}

#[test]
fn query_excludes_self_even_with_a_coincident_body() {
    let bodies = vec![body(1, 5, 3, 3), body(2, 7, 3, 3), body(3, 11, -20, 9)];
    let t = tree_of(&bodies);
    for theta in [0u16, 500, 1000, 5000] {
        let s = t.interactions(1, Point::new(3, 3), theta);
        let m: u64 = s.iter().map(|x| x.mass).sum();
        assert_eq!(m, 7 + 11);
        let s = t.interactions(2, Point::new(3, 3), theta);
        let m: u64 = s.iter().map(|x| x.mass).sum();
        assert_eq!(m, 5 + 11);
    }
}

#[test]
fn coincident_bodies_stay_apart_in_the_smallest_cell() {
    let bodies = vec![body(1, 1, 4, 4), body(2, 2, 4, 4), body(3, 3, 4, 4), body(4, 4, 0, 0)];
    let t = tree_of(&bodies);
    let s = sorted(t.interactions(2, Point::new(4, 4), 0));
    assert_eq!(s, vec![(1, 4, 4), (3, 12, 12), (4, 0, 0)]);
}

#[test]
fn theta_zero_gives_every_other_body() {
    let bodies = vec![
        body(1, 3, 0, 0),
        body(2, 4, 1000, 20),
        body(3, 5, 1010, 25),
        body(4, 6, -700, 300),
        body(5, 7, 1005, 22),
    ];
    let t = tree_of(&bodies);
    for b in &bodies {
        let got = sorted(t.interactions(b.id, b.pos, 0));
        let want = sorted(
            bodies
                .iter()
                .filter(|o| o.id != b.id)
                .map(|o| Source {
                    mass: o.mass as u64,
                    moment_x: o.mass as i128 * o.pos.x as i128,
                    moment_y: o.mass as i128 * o.pos.y as i128,
                })
                .collect(),
        );
        assert_eq!(got, want);
    }
}

#[test]
fn two_bodies_see_each_other_only() {
    let b1 = body(1, 3, -40, 10);
    let b2 = body(2, 8, 60, -30);
    let t = tree_of(&vec![b1, b2]);
    for theta in [0u16, 100, 1000, 65535] {
        let s1 = t.interactions(1, b1.pos, theta);
        let s2 = t.interactions(2, b2.pos, theta);
        assert_eq!(s1, vec![Source { mass: 8, moment_x: 480, moment_y: -240 }]);
        assert_eq!(s2, vec![Source { mass: 3, moment_x: -120, moment_y: 30 }]);
        let (ax1, ay1) = accel(b1.pos, &s1);
        let (ax2, ay2) = accel(b2.pos, &s2);
        // forces m1 a1 and m2 a2 are equal and opposite, along the joining line
        let (f1x, f1y) = (3.0 * ax1, 3.0 * ay1);
        let (f2x, f2y) = (8.0 * ax2, 8.0 * ay2);
        assert!((f1x + f2x).abs() < 1e-12 && (f1y + f2y).abs() < 1e-12);
        let (dx, dy) = (100.0, -40.0);
        assert!((f1x * dy - f1y * dx).abs() < 1e-12);
        assert!(f1x * dx + f1y * dy > 0.0);
        let d2: f64 = dx * dx + dy * dy;
        let mag = (f1x * f1x + f1y * f1y).sqrt();
        assert!((mag - 3.0 * 8.0 / d2).abs() < 1e-12);
    }
}

#[test]
fn square_corners_pull_toward_the_center() {
    let l = 1000;
    let bodies = vec![body(1, 10, 0, 0), body(2, 10, l, 0), body(3, 10, 0, l), body(4, 10, l, l)];
    let t = tree_of(&bodies);
    let mut mags = vec![];
    for b in &bodies {
        let s = t.interactions(b.id, b.pos, 0);
        assert_eq!(s.len(), 3);
        let (ax, ay) = accel(b.pos, &s);
        let (cx, cy) = (l as f64 / 2.0 - b.pos.x as f64, l as f64 / 2.0 - b.pos.y as f64);
        assert!((ax * cy - ay * cx).abs() < 1e-12);
        assert!(ax * cx + ay * cy > 0.0);
        mags.push((ax * ax + ay * ay).sqrt());
    }
    for m in &mags {
        assert!((m - mags[0]).abs() < 1e-15);
    }
    // each body: two neighbours at distance L and one at L * sqrt(2)
    let lf = l as f64;
    let want = 10.0 * (2.0f64.sqrt() / (lf * lf) + 1.0 / (2.0 * lf * lf));
    assert!((mags[0] - want).abs() / want < 1e-12);
}

#[test]
fn far_cluster_is_taken_whole_at_a_larger_threshold() {
    let mut bodies = vec![body(0, 1000, 100_000, 0)];
    let mut id = 1;
    for x in [-10, -3, 4, 10] {
        for y in [-10, 7] {
            bodies.push(body(id, 1, x, y));
            id += 1;
        }
    }
    let t = tree_of(&bodies);
    let heavy = bodies[0];
    let fine = t.interactions(0, heavy.pos, 100);
    let coarse = t.interactions(0, heavy.pos, 1000);
    assert!(coarse.len() < 8);
    assert!(coarse.len() <= fine.len());
    let total = |s: &Vec<Source>| {
        (s.iter().map(|x| x.mass).sum::<u64>(), s.iter().map(|x| x.moment_x).sum::<i128>(), s.iter().map(|x| x.moment_y).sum::<i128>())
    };
    assert_eq!(total(&fine), total(&coarse));
    let (fx, fy) = accel(heavy.pos, &fine);
    let (cx, cy) = accel(heavy.pos, &coarse);
    let mag = (fx * fx + fy * fy).sqrt();
    let diff = ((fx - cx) * (fx - cx) + (fy - cy) * (fy - cy)).sqrt();
    assert!(diff / mag < 1e-6);
}

#[test]
fn rebuilding_gives_identical_results() {
    let bodies = vec![body(1, 3, 5, 5), body(2, 9, -300, 41), body(3, 2, 77, -12), body(4, 6, 76, -13)];
    let t1 = tree_of(&bodies);
    let t2 = tree_of(&bodies);
    assert_eq!(t1.aggregate(), t2.aggregate());
    assert_eq!(t1.quadrants(), t2.quadrants());
    for b in &bodies {
        for theta in [0u16, 300, 1000] {
            let a = t1.interactions(b.id, b.pos, theta);
            assert_eq!(a, t2.interactions(b.id, b.pos, theta));
            assert_eq!(a, t1.interactions(b.id, b.pos, theta));
        }
    }
}

#[test]
fn quadrants_list_every_nonempty_cell() {
    let q = Quadrant::new(Point::new(0, 0), 8).unwrap();
    let mut t = Quadtree::new(q, 1);
    assert!(t.quadrants().is_empty());
    t.insert(body(1, 1, -3, 3)).unwrap();
    assert_eq!(t.quadrants(), vec![q]);
    t.insert(body(2, 1, 3, -3)).unwrap();
    // the root splits: the NW and SE children each hold one body
    assert_eq!(t.quadrants(), vec![q, q.subquad(rust_n_body::geometry::Corner::NW), q.subquad(rust_n_body::geometry::Corner::SE)]);
}

#[test]
fn query_outside_the_root_takes_the_root_whole() {
    let bodies = vec![body(1, 2, 0, 0), body(2, 2, 2, 0)];
    let t = tree_of(&bodies);
    let s = t.interactions(9, Point::new(1_000_000, 0), 1000);
    assert_eq!(s, vec![Source { mass: 4, moment_x: 4, moment_y: 0 }]);
}

#[test]
fn cell_holding_the_query_point_is_taken_whole_when_far_enough() {
    let q = Quadrant::new(Point::new(0, 0), 4).unwrap();
    let bodies = vec![body(1, 100, -2, -2), body(2, 1, -2, 0)];
    let t = Quadtree::build(q, 1, &bodies).unwrap();
    // side 4, distance to the center of mass about 4.2: 4 / 4.2 < 1.0
    let s = t.interactions(9, Point::new(1, 1), 1000);
    assert_eq!(s, vec![Source { mass: 101, moment_x: -202, moment_y: -200 }]);
    // below 4 / 4.2 the root is opened
    let s = t.interactions(9, Point::new(1, 1), 900);
    assert_eq!(s.len(), 2);
}

#[test]
fn cell_taken_whole_leaves_out_the_queried_body() {
    let bodies = vec![body(1, 1, 0, 0), body(2, 1, 3, 3), body(3, 1, 3, 0)];
    let t = tree_of(&bodies);
    let s = t.interactions(1, Point::new(0, 0), 65535);
    assert_eq!(s, vec![Source { mass: 2, moment_x: 6, moment_y: 3 }]);
    let s = t.interactions(2, Point::new(3, 3), 65535);
    assert_eq!(s, vec![Source { mass: 2, moment_x: 3, moment_y: 0 }]);
}
