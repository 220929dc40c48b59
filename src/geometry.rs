use vstd::prelude::*;

verus! {

/// Every well-formed quadrant lies inside `[-WORLD_LIMIT, WORLD_LIMIT)` on both axes.
pub const WORLD_LIMIT: i64 = 17_592_186_044_416;

/// The largest coordinate magnitude accepted by `Quadrant::new_containing`.
pub const COORD_LIMIT: i64 = 1_099_511_627_776;

/// A position on the integer grid that the simulation is discretised to.
#[derive(Clone, Copy, Debug, PartialEq, Eq, Structural)]
pub struct Point {
    pub x: i64,
    pub y: i64,
}

impl Point {
    pub fn new(x: i64, y: i64) -> (r: Point)
        ensures
            r.x == x,
            r.y == y,
    {
        Point { x, y }
    }
}

/// The four children of a quadrant.
#[derive(Clone, Copy, Debug, PartialEq, Eq, Structural)]
pub enum Corner {
    NW,
    NE,
    SW,
    SE,
}

impl Corner {
    pub open spec fn is_west(self) -> bool {
        self is NW || self is SW
    }

    pub open spec fn is_north(self) -> bool {
        self is NW || self is NE
    }
}

/// An axis-aligned square: the grid points `p` with
/// `min_x <= p.x < min_x + len` and `min_y <= p.y < min_y + len`,
/// where `min_x = center.x - len / 2` (and likewise for `y`).
#[derive(Clone, Copy, Debug, PartialEq, Eq, Structural)]
pub struct Quadrant {
    pub center: Point,
    pub len: u64,
}

impl Quadrant {
    pub open spec fn min_x(self) -> int {
        self.center.x - self.len / 2
    }

    pub open spec fn min_y(self) -> int {
        self.center.y - self.len / 2
    }

    /// Exclusive upper bound on `x`.
    pub open spec fn max_x(self) -> int {
        self.min_x() + self.len
    }

    /// Exclusive upper bound on `y`.
    pub open spec fn max_y(self) -> int {
        self.min_y() + self.len
    }

    pub open spec fn wf(self) -> bool {
        &&& self.len >= 1
        &&& -WORLD_LIMIT <= self.min_x()
        &&& self.max_x() <= WORLD_LIMIT
        &&& -WORLD_LIMIT <= self.min_y()
        &&& self.max_y() <= WORLD_LIMIT
    }

    pub open spec fn holds(self, p: Point) -> bool {
        &&& self.min_x() <= p.x < self.max_x()
        &&& self.min_y() <= p.y < self.max_y()
    }

    /// A quadrant whose four halves tile it exactly.
    pub open spec fn splittable(self) -> bool {
        self.len >= 2 && self.len % 2 == 0
    }

    pub open spec fn child(self, c: Corner) -> Quadrant {
        let h = self.len / 2;
        let lx = if c.is_west() { self.min_x() } else { self.min_x() + h };
        let ly = if c.is_north() { self.min_y() + h } else { self.min_y() };
        Quadrant { center: Point { x: (lx + h / 2) as i64, y: (ly + h / 2) as i64 }, len: h as u64 }
    }

    /// The child that holds `p`: west below the vertical midline, north at or above
    /// the horizontal one.
    pub open spec fn corner_for(self, p: Point) -> Corner {
        let west = p.x < self.min_x() + self.len / 2;
        let north = p.y >= self.min_y() + self.len / 2;
        if north {
            if west { Corner::NW } else { Corner::NE }
        } else {
            if west { Corner::SW } else { Corner::SE }
        }
    }

    /// Returns the quadrant with this center and side length, or `None` when the
    /// side length is zero or the square leaves the world bounds.
    pub fn new(center: Point, len: u64) -> (r: Option<Quadrant>)
        ensures
            r is Some <==> (Quadrant { center, len }).wf(),
            r is Some ==> r->0 == (Quadrant { center, len }),
    {
        let q = Quadrant { center, len };
        let half = (len / 2) as i128;
        let lx = center.x as i128 - half;
        let ly = center.y as i128 - half;
        let w = WORLD_LIMIT as i128;
        if len >= 1 && -w <= lx && lx + len as i128 <= w && -w <= ly && ly + len as i128 <= w {
            Some(q)
        } else {
            None
        }
    }

    /// Whether `p` lies in this quadrant (lower bounds inclusive, upper exclusive).
    pub fn contains(&self, p: Point) -> (r: bool)
        ensures
            r == self.holds(p),
    {
        let half = (self.len / 2) as i128;
        let lx = self.center.x as i128 - half;
        let ly = self.center.y as i128 - half;
        let n = self.len as i128;
        lx <= p.x as i128 && (p.x as i128) < lx + n && ly <= p.y as i128 && (p.y as i128) < ly + n
    }

    /// The child quadrant at `corner`: half the side length, in that corner.
    pub fn subquad(&self, corner: Corner) -> (r: Quadrant)
        requires
            self.wf(),
            self.splittable(),
        ensures
            r == self.child(corner),
            r.wf(),
            r.min_x() == (if corner.is_west() { self.min_x() } else { self.min_x() + self.len / 2 }),
            r.min_y() == (if corner.is_north() { self.min_y() + self.len / 2 } else { self.min_y() }),
            r.len == self.len / 2,
    {
        let h = self.len / 2;
        let half = h as i64;
        let lx = self.center.x - half;
        let ly = self.center.y - half;
        let cx = match corner {
            Corner::NW | Corner::SW => lx,
            _ => lx + half,
        };
        let cy = match corner {
            Corner::NW | Corner::NE => ly + half,
            _ => ly,
        };
        let q = h / 2;
        Quadrant { center: Point { x: cx + q as i64, y: cy + q as i64 }, len: h }
    }

    /// The corner whose child holds `p`.
    pub fn corner_of(&self, p: Point) -> (r: Corner)
        requires
            self.wf(),
        ensures
            r == self.corner_for(p),
    {
        if p.y >= self.center.y {
            if p.x < self.center.x { Corner::NW } else { Corner::NE }
        } else {
            if p.x < self.center.x { Corner::SW } else { Corner::SE }
        }
    }

    /// The bounds `(left, right, bottom, top)`, the right and top ones exclusive.
    pub fn bounds(&self) -> (r: (i64, i64, i64, i64))
        requires
            self.wf(),
        ensures
            r.0 == self.min_x(),
            r.1 == self.max_x(),
            r.2 == self.min_y(),
            r.3 == self.max_y(),
    {
        let half = (self.len / 2) as i64;
        let n = self.len as i64;
        let left = self.center.x - half;
        let bottom = self.center.y - half;
        (left, left + n, bottom, bottom + n)
    }
}

/// The four children of a splittable quadrant tile it: a point lies in a child
/// exactly when it lies in the parent and that child is the one named by
/// `corner_for`, so each point of the parent lies in exactly one child and no
/// point outside it lies in any; the children's areas add up to the parent's.
pub proof fn lemma_children_partition(q: Quadrant, p: Point)
    requires
        q.wf(),
        q.splittable(),
    ensures
        forall|c: Corner| #[trigger] q.child(c).wf() && q.child(c).len * 2 == q.len,
        forall|c: Corner| #[trigger] q.child(c).holds(p) <==> (q.holds(p) && c == q.corner_for(p)),
        4 * (q.len / 2) * (q.len / 2) == q.len * q.len,
{
    assert forall|c: Corner| #[trigger] q.child(c).wf() && q.child(c).len * 2 == q.len by {
        let h = q.len / 2;
        assert(q.child(c).min_x() == if c.is_west() { q.min_x() } else { q.min_x() + h });
        assert(q.child(c).min_y() == if c.is_north() { q.min_y() + h } else { q.min_y() });
    }
    assert forall|c: Corner| #[trigger] q.child(c).holds(p) <==> (q.holds(p) && c == q.corner_for(p)) by {
        let h = q.len / 2;
        assert(q.child(c).min_x() == if c.is_west() { q.min_x() } else { q.min_x() + h });
        assert(q.child(c).min_y() == if c.is_north() { q.min_y() + h } else { q.min_y() });
    }
    let h = q.len / 2;
    assert(q.len == 2 * h);
    assert(4 * h * h == (2 * h) * (2 * h)) by (nonlinear_arith);
}

/// The least value of `f` over a non-empty sequence of points.
pub open spec fn lowest(s: Seq<Point>, f: spec_fn(Point) -> int) -> int
    decreases s.len(),
{
    if s.len() <= 1 {
        f(s[0])
    } else {
        let m = lowest(s.drop_last(), f);
        if f(s.last()) < m { f(s.last()) } else { m }
    }
}

/// The greatest value of `f` over a non-empty sequence of points.
pub open spec fn highest(s: Seq<Point>, f: spec_fn(Point) -> int) -> int
    decreases s.len(),
{
    if s.len() <= 1 {
        f(s[0])
    } else {
        let m = highest(s.drop_last(), f);
        if f(s.last()) > m { f(s.last()) } else { m }
    }
}

pub open spec fn is_pow2(n: nat) -> bool
    decreases n,
{
    if n <= 1 {
        n == 1
    } else {
        n % 2 == 0 && is_pow2(n / 2)
    }
}

pub open spec fn in_coord_range(p: Point) -> bool {
    -COORD_LIMIT <= p.x <= COORD_LIMIT && -COORD_LIMIT <= p.y <= COORD_LIMIT
}

/// The larger side of the bounding box of a non-empty sequence of points.
pub open spec fn extent(s: Seq<Point>) -> int {
    let ex = highest(s, |p: Point| p.x as int) - lowest(s, |p: Point| p.x as int);
    let ey = highest(s, |p: Point| p.y as int) - lowest(s, |p: Point| p.y as int);
    if ex > ey { ex } else { ey }
}

proof fn lemma_lowest_highest(s: Seq<Point>, f: spec_fn(Point) -> int)
    requires
        s.len() >= 1,
    ensures
        forall|i: int| 0 <= i < s.len() ==> lowest(s, f) <= #[trigger] f(s[i]) <= highest(s, f),
        exists|i: int| 0 <= i < s.len() && lowest(s, f) == f(s[i]),
        exists|i: int| 0 <= i < s.len() && highest(s, f) == f(s[i]),
    decreases s.len(),
{
    if s.len() > 1 {
        let t = s.drop_last();
        lemma_lowest_highest(t, f);
        assert forall|i: int| 0 <= i < s.len() implies lowest(s, f) <= #[trigger] f(s[i]) <= highest(s, f) by {
            if i < t.len() {
                assert(t[i] == s[i]);
            }
        }
        let i = choose|i: int| 0 <= i < t.len() && lowest(t, f) == f(t[i]);
        let j = choose|j: int| 0 <= j < t.len() && highest(t, f) == f(t[j]);
        assert(t[i] == s[i] && t[j] == s[j]);
        let l = s.len() - 1;
        assert(s.last() == s[l]);
        if f(s.last()) < lowest(t, f) {
            assert(lowest(s, f) == f(s[l]));
        } else {
            assert(lowest(s, f) == f(s[i]));
        }
        if f(s.last()) > highest(t, f) {
            assert(highest(s, f) == f(s[l]));
        } else {
            assert(highest(s, f) == f(s[j]));
        }
    } else {
        assert(lowest(s, f) == f(s[0]));
        assert(highest(s, f) == f(s[0]));
    }
}

impl Quadrant {
    /// The smallest power-of-two square, at least two wider than the bounding box of
    /// `positions`, centered on that box's midpoint rounded down. Every position
    /// then lies strictly inside it. `None` for no positions, or for one outside
    /// `[-COORD_LIMIT, COORD_LIMIT]`.
    pub fn new_containing(positions: &Vec<Point>) -> (r: Option<Quadrant>)
        ensures
            r is None <==> (positions@.len() == 0 || exists|i: int|
                0 <= i < positions@.len() && !in_coord_range(#[trigger] positions@[i])),
            r is Some ==> {
                let q = r->0;
                let s = positions@;
                let (lx, hx) = (lowest(s, |p: Point| p.x as int), highest(s, |p: Point| p.x as int));
                let (ly, hy) = (lowest(s, |p: Point| p.y as int), highest(s, |p: Point| p.y as int));
                &&& q.wf()
                &&& forall|i: int| 0 <= i < s.len() ==> q.holds(#[trigger] s[i])
                &&& q.center.x == lx + (hx - lx) / 2
                &&& q.center.y == ly + (hy - ly) / 2
                &&& is_pow2(q.len as nat)
                &&& q.len >= extent(s) + 2
                &&& q.len / 2 < extent(s) + 2
            },
    {
        let n = positions.len();
        if n == 0 {
            return None;
        }
        let ghost s = positions@;
        let mut i: usize = 0;
        while i < n
            invariant
                n == positions@.len(),
                i <= n,
                forall|j: int| 0 <= j < i ==> in_coord_range(#[trigger] positions@[j]),
            decreases n - i,
        {
            let p = positions[i];
            if p.x < -COORD_LIMIT || p.x > COORD_LIMIT || p.y < -COORD_LIMIT || p.y > COORD_LIMIT {
                return None;
            }
            i = i + 1;
        }
        let mut min_x = positions[0].x;
        let mut max_x = positions[0].x;
        let mut min_y = positions[0].y;
        let mut max_y = positions[0].y;
        let mut k: usize = 1;
        while k < n
            invariant
                n == positions@.len(),
                s == positions@,
                1 <= k <= n,
                min_x == lowest(s.take(k as int), |p: Point| p.x as int),
                max_x == highest(s.take(k as int), |p: Point| p.x as int),
                min_y == lowest(s.take(k as int), |p: Point| p.y as int),
                max_y == highest(s.take(k as int), |p: Point| p.y as int),
            decreases n - k,
        {
            let p = positions[k];
            proof {
                assert(s.take(k as int + 1).drop_last() =~= s.take(k as int));
                assert(s.take(k as int + 1).last() == p);
            }
            if p.x < min_x {
                min_x = p.x;
            }
            if p.x > max_x {
                max_x = p.x;
            }
            if p.y < min_y {
                min_y = p.y;
            }
            if p.y > max_y {
                max_y = p.y;
            }
            k = k + 1;
        }
        proof {
            assert(s.take(n as int) =~= s);
            lemma_lowest_highest(s, |p: Point| p.x as int);
            lemma_lowest_highest(s, |p: Point| p.y as int);
            let a = choose|i: int| 0 <= i < s.len() && lowest(s, |p: Point| p.x as int) == s[i].x as int;
            let b = choose|i: int| 0 <= i < s.len() && highest(s, |p: Point| p.x as int) == s[i].x as int;
            let c = choose|i: int| 0 <= i < s.len() && lowest(s, |p: Point| p.y as int) == s[i].y as int;
            let d = choose|i: int| 0 <= i < s.len() && highest(s, |p: Point| p.y as int) == s[i].y as int;
            assert(in_coord_range(s[a]) && in_coord_range(s[b]) && in_coord_range(s[c]) && in_coord_range(s[d]));
        }
        let ex = (max_x - min_x) as u64;
        let ey = (max_y - min_y) as u64;
        let e = if ex > ey { ex } else { ey };
        let mut len: u64 = 1;
        while len < e + 2
            invariant
                e <= 0x200_0000_0000,
                1 <= len,
                is_pow2(len as nat),
                len == 1 || len / 2 < e + 2,
                len <= 2 * (e + 2),
            decreases 2 * (e + 2) - len,
        {
            proof {
                assert(is_pow2((2 * len) as nat)) by {
                    assert((2 * len) as nat / 2 == len as nat);
                }
            }
            len = len * 2;
        }
        let cx = min_x + ((max_x - min_x) / 2);
        let cy = min_y + ((max_y - min_y) / 2);
        let q = Quadrant { center: Point { x: cx, y: cy }, len };
        proof {
            assert(len >= 2);
            assert(len % 2 == 0) by {
                assert(is_pow2(len as nat));
            }
            let ex = max_x - min_x;
            let ey = max_y - min_y;
            assert(len / 2 >= ex / 2 + 1 && len / 2 > ex - ex / 2);
            assert(len / 2 >= ey / 2 + 1 && len / 2 > ey - ey / 2);
            assert forall|i: int| 0 <= i < s.len() implies q.holds(#[trigger] s[i]) by {
                assert((|p: Point| p.x as int)(s[i]) == s[i].x as int);
                assert((|p: Point| p.y as int)(s[i]) == s[i].y as int);
            }
        }
        Some(q)
    }
}

} // verus!
