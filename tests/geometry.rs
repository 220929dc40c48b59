use rust_n_body::geometry::{Corner, Point, Quadrant};

fn quad(x: i64, y: i64, len: u64) -> Quadrant {
    Quadrant::new(Point::new(x, y), len).unwrap()
}

#[test]
fn new_rejects_zero_side() {
    assert!(Quadrant::new(Point::new(0, 0), 0).is_none());
    assert!(Quadrant::new(Point::new(0, 0), 1).is_some());
}

#[test]
fn new_rejects_square_outside_world() {
    let far = rust_n_body::geometry::WORLD_LIMIT;
    assert!(Quadrant::new(Point::new(far, 0), 4).is_none());
    assert!(Quadrant::new(Point::new(far - 2, 0), 4).is_some());
}

#[test]
fn contains_is_half_open() {
    let q = quad(0, 0, 8);
    assert!(q.contains(Point::new(-4, -4)));
    assert!(q.contains(Point::new(3, 3)));
    assert!(!q.contains(Point::new(4, 0)));
    assert!(!q.contains(Point::new(0, 4)));
    assert!(!q.contains(Point::new(-5, 0)));
    assert_eq!(q.bounds(), (-4, 4, -4, 4));
}

#[test]
fn subquad_halves_and_moves_by_a_quarter() {
    let q = quad(0, 0, 8);
    assert_eq!(q.subquad(Corner::NW), quad(-2, 2, 4));
    assert_eq!(q.subquad(Corner::NE), quad(2, 2, 4));
    assert_eq!(q.subquad(Corner::SW), quad(-2, -2, 4));
    assert_eq!(q.subquad(Corner::SE), quad(2, -2, 4));
    assert_eq!(q.subquad(Corner::SE).bounds(), (0, 4, -4, 0));
}

#[test]
fn each_point_of_the_parent_lies_in_exactly_one_child() {
    let q = quad(3, -5, 16);
    let corners = [Corner::NW, Corner::NE, Corner::SW, Corner::SE];
    let mut inside = 0;
    for x in -10..=15 {
        for y in -18..=8 {
            let p = Point::new(x, y);
            let n = corners.iter().filter(|c| q.subquad(**c).contains(p)).count();
            if q.contains(p) {
                inside += 1;
                assert_eq!(n, 1);
                assert!(q.subquad(q.corner_of(p)).contains(p));
            } else {
                assert_eq!(n, 0);
            }
        }
    }
    assert_eq!(inside, 16 * 16);
}

#[test]
fn corner_of_sends_the_midlines_east_and_north() {
    let q = quad(0, 0, 8);
    assert_eq!(q.corner_of(Point::new(0, 0)), Corner::NE);
    assert_eq!(q.corner_of(Point::new(-1, 0)), Corner::NW);
    assert_eq!(q.corner_of(Point::new(-1, -1)), Corner::SW);
    assert_eq!(q.corner_of(Point::new(0, -1)), Corner::SE);
}

#[test]
fn new_containing_bounds_all_points() {
    let ps = vec![Point::new(0, 0), Point::new(10, 3), Point::new(-6, 7)];
    let q = Quadrant::new_containing(&ps).unwrap();
    // extent 16, so the side is the least power of two of at least 18
    assert_eq!(q.len, 32);
    assert_eq!(q.center, Point::new(2, 3));
    for p in &ps {
        assert!(q.contains(*p));
    }
}

#[test]
fn new_containing_single_point() {
    let q = Quadrant::new_containing(&vec![Point::new(-7, 9)]).unwrap();
    assert_eq!(q.len, 2);
    assert_eq!(q.center, Point::new(-7, 9));
    assert!(q.contains(Point::new(-7, 9)));
}

#[test]
fn new_containing_odd_extent() {
    let ps = vec![Point::new(0, 0), Point::new(3, 0)];
    let q = Quadrant::new_containing(&ps).unwrap();
    assert_eq!(q.len, 8);
    assert_eq!(q.center, Point::new(1, 0));
    assert!(q.contains(Point::new(3, 0)));
    assert!(q.contains(Point::new(0, 0)));
}

#[test]
fn new_containing_rejects_empty_and_far_points() {
    assert!(Quadrant::new_containing(&vec![]).is_none());
    let far = rust_n_body::geometry::COORD_LIMIT + 1;
    assert!(Quadrant::new_containing(&vec![Point::new(0, 0), Point::new(far, 0)]).is_none());
    let edge = rust_n_body::geometry::COORD_LIMIT;
    let q = Quadrant::new_containing(&vec![Point::new(-edge, -edge), Point::new(edge, edge)]).unwrap();
    assert!(q.contains(Point::new(edge, edge)));
    assert!(q.contains(Point::new(-edge, -edge)));
}
