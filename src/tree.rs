use vstd::prelude::*;
use vstd::multiset::Multiset;
use vstd::seq_lib::lemma_multiset_commutative;
use vstd::arithmetic::div_mod::{
    lemma_fundamental_div_mod, lemma_div_multiples_vanish_fancy, lemma_div_is_ordered,
    lemma_div_multiples_vanish,
};
use crate::body::{
    Body, Source, total, others, selves, lemma_total_split, lemma_filters_from, body_source, body_sources, mass_of, moment_x_of,
    moment_y_of, lemma_total_concat, lemma_moment_fits,
};
use crate::geometry::{Corner, Point, Quadrant, WORLD_LIMIT, lemma_children_partition};

verus! {

/// The shape of a quadtree, as a mathematical value. The quadrant of each cell is
/// not stored: it follows from the root's by `Quadrant::child`.
pub enum Cell {
    Empty,
    /// One body, or several in a quadrant too small to split.
    Leaf(Seq<Body>),
    /// Children in the order north-west, north-east, south-west, south-east.
    Internal(Box<Cell>, Box<Cell>, Box<Cell>, Box<Cell>),
}

/// Whether a leaf in quadrant `q` is split when a second body arrives.
pub open spec fn splits(q: Quadrant, min_len: u64) -> bool {
    q.splittable() && q.len > min_len
}

impl Cell {
    pub open spec fn kid(self, c: Corner) -> Cell
        recommends
            self is Internal,
    {
        match self {
            Cell::Internal(nw, ne, sw, se) => match c {
                Corner::NW => *nw,
                Corner::NE => *ne,
                Corner::SW => *sw,
                Corner::SE => *se,
            },
            _ => Cell::Empty,
        }
    }

    /// The bodies held in this cell, leaves in order north-west, north-east,
    /// south-west, south-east.
    pub open spec fn contents(self) -> Seq<Body>
        decreases self,
    {
        match self {
            Cell::Empty => Seq::empty(),
            Cell::Leaf(s) => s,
            Cell::Internal(nw, ne, sw, se) => nw.contents() + ne.contents() + sw.contents()
                + se.contents(),
        }
    }

    /// Every body lies in its cell's quadrant, has a positive mass, and a leaf holds
    /// more than one body only where its quadrant is not split any further.
    pub open spec fn wf(self, q: Quadrant, min_len: u64) -> bool
        decreases self,
    {
        match self {
            Cell::Empty => true,
            Cell::Leaf(s) => {
                &&& s.len() >= 1
                &&& splits(q, min_len) ==> s.len() == 1
                &&& forall|i: int| 0 <= i < s.len() ==> q.holds(#[trigger] s[i].pos) && s[i].mass > 0
            },
            Cell::Internal(nw, ne, sw, se) => {
                &&& splits(q, min_len)
                &&& self.contents().len() >= 1
                &&& nw.wf(q.child(Corner::NW), min_len)
                &&& ne.wf(q.child(Corner::NE), min_len)
                &&& sw.wf(q.child(Corner::SW), min_len)
                &&& se.wf(q.child(Corner::SE), min_len)
            },
        }
    }

    pub open spec fn with_kid(self, c: Corner, k: Cell) -> Cell {
        match self {
            Cell::Internal(nw, ne, sw, se) => match c {
                Corner::NW => Cell::Internal(Box::new(k), ne, sw, se),
                Corner::NE => Cell::Internal(nw, Box::new(k), sw, se),
                Corner::SW => Cell::Internal(nw, ne, Box::new(k), se),
                Corner::SE => Cell::Internal(nw, ne, sw, Box::new(k)),
            },
            _ => self,
        }
    }
}

/// An internal cell over `q` holding `b` alone, in the child that contains it.
pub open spec fn split_leaf(q: Quadrant, b: Body) -> Cell {
    let e = Cell::Internal(
        Box::new(Cell::Empty),
        Box::new(Cell::Empty),
        Box::new(Cell::Empty),
        Box::new(Cell::Empty),
    );
    e.with_kid(q.corner_for(b.pos), Cell::Leaf(seq![b]))
}

/// The cell after inserting `b` into cell `c` over quadrant `q`: an empty cell
/// becomes a leaf; a leaf that may split becomes an internal cell holding its body,
/// into which `b` then goes; a leaf that may not split keeps `b` too; an internal
/// cell hands `b` to the child whose quadrant contains it.
pub open spec fn ins(q: Quadrant, c: Cell, b: Body, min_len: u64) -> Cell
    decreases q.len, (if c is Leaf { 1int } else { 0int }),
{
    match c {
        Cell::Empty => Cell::Leaf(seq![b]),
        Cell::Leaf(s) => {
            if splits(q, min_len) && s.len() == 1 {
                ins(q, split_leaf(q, s[0]), b, min_len)
            } else {
                Cell::Leaf(s.push(b))
            }
        },
        Cell::Internal(_, _, _, _) => {
            if q.len == 0 {
                c
            } else {
                let k = q.corner_for(b.pos);
                c.with_kid(k, ins(q.child(k), c.kid(k), b, min_len))
            }
        },
    }
}

/// Storage for an internal cell: exact aggregates of the bodies below it and the
/// four children.
struct Branch {
    mass: u64,
    moment_x: i128,
    moment_y: i128,
    nw: Node,
    ne: Node,
    sw: Node,
    se: Node,
}

enum Node {
    Empty,
    Leaf(Vec<Body>),
    Internal(Box<Branch>),
}

impl Node {
    closed spec fn cell(&self) -> Cell
        decreases self,
    {
        match self {
            Node::Empty => Cell::Empty,
            Node::Leaf(v) => Cell::Leaf(v@),
            Node::Internal(br) => Cell::Internal(
                Box::new(br.nw.cell()),
                Box::new(br.ne.cell()),
                Box::new(br.sw.cell()),
                Box::new(br.se.cell()),
            ),
        }
    }

    /// Each stored aggregate is the total over the bodies below it.
    closed spec fn sums_ok(&self) -> bool
        decreases self,
    {
        match self {
            Node::Internal(br) => {
                &&& br.mass == total(self.cell().contents(), |b: Body| mass_of(b))
                &&& br.moment_x == total(self.cell().contents(), |b: Body| moment_x_of(b))
                &&& br.moment_y == total(self.cell().contents(), |b: Body| moment_y_of(b))
                &&& br.nw.sums_ok()
                &&& br.ne.sums_ok()
                &&& br.sw.sums_ok()
                &&& br.se.sums_ok()
            },
            _ => true,
        }
    }
}

/// All bodies of `s` lie in `q` and have positive masses.
pub open spec fn all_held(s: Seq<Body>, q: Quadrant) -> bool {
    forall|i: int| 0 <= i < s.len() ==> q.holds(#[trigger] s[i].pos) && s[i].mass > 0
}

/// The bodies of a well-formed cell lie in its quadrant.
pub proof fn lemma_contents_held(c: Cell, q: Quadrant, min_len: u64)
    requires
        q.wf(),
        c.wf(q, min_len),
    ensures
        all_held(c.contents(), q),
    decreases c,
{
    match c {
        Cell::Empty => {},
        Cell::Leaf(s) => {},
        Cell::Internal(nw, ne, sw, se) => {
            lemma_children_partition(q, Point { x: 0, y: 0 });
            lemma_contents_held(*nw, q.child(Corner::NW), min_len);
            lemma_contents_held(*ne, q.child(Corner::NE), min_len);
            lemma_contents_held(*sw, q.child(Corner::SW), min_len);
            lemma_contents_held(*se, q.child(Corner::SE), min_len);
            let s = c.contents();
            assert forall|i: int| 0 <= i < s.len() implies q.holds(#[trigger] s[i].pos) && s[i].mass > 0 by {
                let p = s[i].pos;
                lemma_children_partition(q, p);
                let a = nw.contents();
                let b = ne.contents();
                let d = sw.contents();
                let e = se.contents();
                assert(s == a + b + d + e);
                if i < a.len() {
                    assert(s[i] == a[i]);
                } else if i < a.len() + b.len() {
                    assert(s[i] == b[i - a.len()]);
                } else if i < a.len() + b.len() + d.len() {
                    assert(s[i] == d[i - a.len() - b.len()]);
                } else {
                    assert(s[i] == e[i - a.len() - b.len() - d.len()]);
                }
            }
        },
    }
}

/// One coordinate of a point: `x` where `on_x`, else `y`.
pub open spec fn coord(p: Point, on_x: bool) -> int {
    if on_x { p.x as int } else { p.y as int }
}

/// The total first moment of `s` along one axis.
pub open spec fn moment_total(s: Seq<Body>, on_x: bool) -> int {
    if on_x { total(s, |b: Body| moment_x_of(b)) } else { total(s, |b: Body| moment_y_of(b)) }
}

/// Bounds on the moments of bodies whose coordinate on one axis lies in `[lo, hi)`.
pub proof fn lemma_moment_range(s: Seq<Body>, lo: int, hi: int, on_x: bool)
    requires
        forall|i: int| 0 <= i < s.len() ==> lo <= #[trigger] coord(s[i].pos, on_x) < hi,
    ensures
        lo * total(s, |b: Body| mass_of(b)) <= moment_total(s, on_x),
        moment_total(s, on_x) <= (hi - 1) * total(s, |b: Body| mass_of(b)),
        total(s, |b: Body| mass_of(b)) >= 0,
    decreases s.len(),
{
    if s.len() > 0 {
        let t = s.drop_last();
        assert forall|i: int| 0 <= i < t.len() implies lo <= #[trigger] coord(t[i].pos, on_x) < hi by {
            assert(t[i] == s[i]);
        }
        lemma_moment_range(t, lo, hi, on_x);
        let b = s.last();
        assert(lo <= coord(b.pos, on_x) < hi) by {
            assert(s[s.len() - 1] == b);
        }
        let m = b.mass as int;
        let x = coord(b.pos, on_x);
        assert(moment_total(s, on_x) == moment_total(t, on_x) + m * x);
        assert(lo * m <= m * x <= (hi - 1) * m) by (nonlinear_arith)
            requires
                lo <= x < hi,
                m >= 0,
        ;
        let ms = total(s, |b: Body| mass_of(b));
        let mt = total(t, |b: Body| mass_of(b));
        assert(ms == mt + m);
        assert(lo * ms == lo * mt + lo * m && (hi - 1) * ms == (hi - 1) * mt + (hi - 1) * m)
            by (nonlinear_arith)
            requires
                ms == mt + m,
        ;
    }
}

/// The moments of bodies held by `q` lie between its bounds times their mass.
pub proof fn lemma_held_ranges(s: Seq<Body>, q: Quadrant)
    requires
        all_held(s, q),
    ensures
        q.min_x() * total(s, |b: Body| mass_of(b)) <= total(s, |b: Body| moment_x_of(b)),
        total(s, |b: Body| moment_x_of(b)) <= (q.max_x() - 1) * total(s, |b: Body| mass_of(b)),
        q.min_y() * total(s, |b: Body| mass_of(b)) <= total(s, |b: Body| moment_y_of(b)),
        total(s, |b: Body| moment_y_of(b)) <= (q.max_y() - 1) * total(s, |b: Body| mass_of(b)),
        total(s, |b: Body| mass_of(b)) >= 0,
{
    assert forall|i: int| 0 <= i < s.len() implies q.min_x() <= #[trigger] coord(s[i].pos, true) < q.max_x() by {
        assert(q.holds(s[i].pos));
    }
    assert forall|i: int| 0 <= i < s.len() implies q.min_y() <= #[trigger] coord(s[i].pos, false) < q.max_y() by {
        assert(q.holds(s[i].pos));
    }
    lemma_moment_range(s, q.min_x(), q.max_x(), true);
    lemma_moment_range(s, q.min_y(), q.max_y(), false);
}

/// The moments of bodies inside a well-formed quadrant stay within the world's
/// bounds times their total mass.
pub proof fn lemma_moments_bounded(s: Seq<Body>, q: Quadrant)
    requires
        q.wf(),
        all_held(s, q),
    ensures
        -WORLD_LIMIT * total(s, |b: Body| mass_of(b)) <= total(s, |b: Body| moment_x_of(b))
            <= WORLD_LIMIT * total(s, |b: Body| mass_of(b)),
        -WORLD_LIMIT * total(s, |b: Body| mass_of(b)) <= total(s, |b: Body| moment_y_of(b))
            <= WORLD_LIMIT * total(s, |b: Body| mass_of(b)),
        total(s, |b: Body| mass_of(b)) >= 0,
{
    lemma_held_ranges(s, q);
    let m = total(s, |b: Body| mass_of(b));
    let w = WORLD_LIMIT as int;
    assert(-w * m <= q.min_x() * m) by (nonlinear_arith)
        requires
            -w <= q.min_x(),
            m >= 0,
    ;
    assert((q.max_x() - 1) * m <= w * m) by (nonlinear_arith)
        requires
            q.max_x() <= w,
            m >= 0,
    ;
    assert(-w * m <= q.min_y() * m) by (nonlinear_arith)
        requires
            -w <= q.min_y(),
            m >= 0,
    ;
    assert((q.max_y() - 1) * m <= w * m) by (nonlinear_arith)
        requires
            q.max_y() <= w,
            m >= 0,
    ;
}

/// Totals of masses are never negative.
pub proof fn lemma_mass_nonneg(s: Seq<Body>)
    ensures
        total(s, |b: Body| mass_of(b)) >= 0,
    decreases s.len(),
{
    if s.len() > 0 {
        lemma_mass_nonneg(s.drop_last());
    }
}

/// Replacing one child of an internal cell changes its contents and totals by
/// what that child's replacement adds.
pub proof fn lemma_with_kid(c: Cell, k: Corner, new: Cell, b: Body)
    requires
        c is Internal,
        new.contents().to_multiset() == c.kid(k).contents().to_multiset().insert(b),
        total(new.contents(), |x: Body| mass_of(x)) == total(c.kid(k).contents(), |x: Body| mass_of(x))
            + mass_of(b),
        total(new.contents(), |x: Body| moment_x_of(x)) == total(
            c.kid(k).contents(),
            |x: Body| moment_x_of(x),
        ) + moment_x_of(b),
        total(new.contents(), |x: Body| moment_y_of(x)) == total(
            c.kid(k).contents(),
            |x: Body| moment_y_of(x),
        ) + moment_y_of(b),
    ensures
        c.with_kid(k, new).contents().to_multiset() == c.contents().to_multiset().insert(b),
        total(c.with_kid(k, new).contents(), |x: Body| mass_of(x)) == total(
            c.contents(),
            |x: Body| mass_of(x),
        ) + mass_of(b),
        total(c.with_kid(k, new).contents(), |x: Body| moment_x_of(x)) == total(
            c.contents(),
            |x: Body| moment_x_of(x),
        ) + moment_x_of(b),
        total(c.with_kid(k, new).contents(), |x: Body| moment_y_of(x)) == total(
            c.contents(),
            |x: Body| moment_y_of(x),
        ) + moment_y_of(b),
{
    broadcast use vstd::multiset::group_multiset_axioms;

    let d = c.with_kid(k, new);
    let a0 = d.kid(Corner::NW).contents();
    let a1 = d.kid(Corner::NE).contents();
    let a2 = d.kid(Corner::SW).contents();
    let a3 = d.kid(Corner::SE).contents();
    let o0 = c.kid(Corner::NW).contents();
    let o1 = c.kid(Corner::NE).contents();
    let o2 = c.kid(Corner::SW).contents();
    let o3 = c.kid(Corner::SE).contents();
    assert(d.contents() == a0 + a1 + a2 + a3);
    assert(c.contents() == o0 + o1 + o2 + o3);
    lemma_multiset_commutative(a0, a1);
    lemma_multiset_commutative(a0 + a1, a2);
    lemma_multiset_commutative(a0 + a1 + a2, a3);
    lemma_multiset_commutative(o0, o1);
    lemma_multiset_commutative(o0 + o1, o2);
    lemma_multiset_commutative(o0 + o1 + o2, o3);
    assert(d.contents().to_multiset() =~= c.contents().to_multiset().insert(b));
    lemma_total4(a0, a1, a2, a3, |x: Body| mass_of(x));
    lemma_total4(o0, o1, o2, o3, |x: Body| mass_of(x));
    lemma_total4(a0, a1, a2, a3, |x: Body| moment_x_of(x));
    lemma_total4(o0, o1, o2, o3, |x: Body| moment_x_of(x));
    lemma_total4(a0, a1, a2, a3, |x: Body| moment_y_of(x));
    lemma_total4(o0, o1, o2, o3, |x: Body| moment_y_of(x));
}

pub proof fn lemma_total4(a: Seq<Body>, b: Seq<Body>, c: Seq<Body>, d: Seq<Body>, f: spec_fn(Body) -> int)
    ensures
        total(a + b + c + d, f) == total(a, f) + total(b, f) + total(c, f) + total(d, f),
{
    lemma_total_concat(a, b, f);
    lemma_total_concat(a + b, c, f);
    lemma_total_concat(a + b + c, d, f);
}

/// The totals over a single body are that body's own values.
pub proof fn lemma_total_single(b: Body, f: spec_fn(Body) -> int)
    ensures
        total(seq![b], f) == f(b),
{
    assert(seq![b].drop_last() =~= Seq::<Body>::empty());
    assert(seq![b].last() == b);
    assert(total(Seq::<Body>::empty(), f) == 0);
    assert(total(seq![b], f) == total(seq![b].drop_last(), f) + f(seq![b].last()));
}

impl Node {
    /// An internal node over `q` holding `b` alone.
    fn split_node(q: Quadrant, min_len: u64, b: Body) -> (r: Node)
        requires
            q.wf(),
            splits(q, min_len),
            q.holds(b.pos),
            b.mass > 0,
        ensures
            r.cell() == split_leaf(q, b),
            r.cell().wf(q, min_len),
            r.sums_ok(),
            r.cell().contents() == seq![b],
    {
        let mut v: Vec<Body> = Vec::new();
        v.push(b);
        proof {
            assert(v@ =~= seq![b]);
        }
        let leaf = Node::Leaf(v);
        let ghost lc = leaf.cell();
        proof {
            assert(lc == Cell::Leaf(seq![b]));
            assert(Node::Empty.cell() == Cell::Empty);
            assert(leaf.sums_ok());
            assert(Node::Empty.sums_ok());
        }
        let mass = b.mass as u64;
        proof {
            lemma_moment_fits(b);
        }
        let moment_x = (b.mass as i128) * (b.pos.x as i128);
        let moment_y = (b.mass as i128) * (b.pos.y as i128);
        let k = q.corner_of(b.pos);
        let br = match k {
            Corner::NW => Branch { mass, moment_x, moment_y, nw: leaf, ne: Node::Empty, sw: Node::Empty, se: Node::Empty },
            Corner::NE => Branch { mass, moment_x, moment_y, nw: Node::Empty, ne: leaf, sw: Node::Empty, se: Node::Empty },
            Corner::SW => Branch { mass, moment_x, moment_y, nw: Node::Empty, ne: Node::Empty, sw: leaf, se: Node::Empty },
            Corner::SE => Branch { mass, moment_x, moment_y, nw: Node::Empty, ne: Node::Empty, sw: Node::Empty, se: leaf },
        };
        let r = Node::Internal(Box::new(br));
        proof {
            assert(k == q.corner_for(b.pos));
            assert(r.cell() == split_leaf(q, b));
            lemma_split_leaf(q, min_len, b);
            lemma_total_single(b, |x: Body| mass_of(x));
            lemma_total_single(b, |x: Body| moment_x_of(x));
            lemma_total_single(b, |x: Body| moment_y_of(x));
        }
        r
    }

    /// Inserts `b` into this node over quadrant `q`, keeping every aggregate exact.
    fn insert_node(self, q: Quadrant, min_len: u64, b: Body) -> (r: Node)
        requires
            q.wf(),
            self.cell().wf(q, min_len),
            self.sums_ok(),
            q.holds(b.pos),
            b.mass > 0,
            total(self.cell().contents(), |x: Body| mass_of(x)) + b.mass <= u64::MAX,
        ensures
            r.cell() == ins(q, self.cell(), b, min_len),
            r.cell().wf(q, min_len),
            r.sums_ok(),
            r.cell().contents().to_multiset() == self.cell().contents().to_multiset().insert(b),
            total(r.cell().contents(), |x: Body| mass_of(x)) == total(
                self.cell().contents(),
                |x: Body| mass_of(x),
            ) + mass_of(b),
            total(r.cell().contents(), |x: Body| moment_x_of(x)) == total(
                self.cell().contents(),
                |x: Body| moment_x_of(x),
            ) + moment_x_of(b),
            total(r.cell().contents(), |x: Body| moment_y_of(x)) == total(
                self.cell().contents(),
                |x: Body| moment_y_of(x),
            ) + moment_y_of(b),
        decreases q.len, (if self is Leaf { 1int } else { 0int }),
    {
        broadcast use vstd::seq_lib::group_seq_properties;
        broadcast use vstd::multiset::group_multiset_axioms;

        proof {
            lemma_total_single(b, |x: Body| mass_of(x));
            lemma_total_single(b, |x: Body| moment_x_of(x));
            lemma_total_single(b, |x: Body| moment_y_of(x));
        }
        match self {
            Node::Empty => {
                let mut v: Vec<Body> = Vec::new();
                v.push(b);
                proof {
                    assert(v@ =~= seq![b]);
                    assert(Seq::<Body>::empty().to_multiset() =~= Multiset::<Body>::empty());
                    assert(seq![b] =~= Seq::<Body>::empty().push(b));
                }
                Node::Leaf(v)
            },
            Node::Leaf(mut v) => {
                if q.len > min_len && q.len % 2 == 0 && v.len() == 1 {
                    let b0 = v[0];
                    proof {
                        assert(q.holds(v@[0].pos) && v@[0].mass > 0);
                    }
                    let sq = Node::split_node(q, min_len, b0);
                    proof {
                        assert(v@ =~= seq![b0]);
                    }
                    sq.insert_node(q, min_len, b)
                } else {
                    let ghost s = v@;
                    v.push(b);
                    proof {
                        assert(v@ == s.push(b));
                        assert(v@.drop_last() =~= s);
                        assert forall|i: int| 0 <= i < v@.len() implies q.holds(#[trigger] v@[i].pos)
                            && v@[i].mass > 0 by {
                            if i < s.len() {
                                assert(v@[i] == s[i]);
                            }
                        }
                    }
                    Node::Leaf(v)
                }
            },
            Node::Internal(br) => {
                let ghost old_cell = self.cell();
                let Branch { mass, moment_x, moment_y, nw, ne, sw, se } = *br;
                let k = q.corner_of(b.pos);
                let cq = q.subquad(k);
                proof {
                    lemma_children_partition(q, b.pos);
                    lemma_mass_nonneg(nw.cell().contents());
                    lemma_mass_nonneg(ne.cell().contents());
                    lemma_mass_nonneg(sw.cell().contents());
                    lemma_mass_nonneg(se.cell().contents());
                    lemma_total4(
                        nw.cell().contents(),
                        ne.cell().contents(),
                        sw.cell().contents(),
                        se.cell().contents(),
                        |x: Body| mass_of(x),
                    );
                }
                let (nw, ne, sw, se) = match k {
                    Corner::NW => (nw.insert_node(cq, min_len, b), ne, sw, se),
                    Corner::NE => (nw, ne.insert_node(cq, min_len, b), sw, se),
                    Corner::SW => (nw, ne, sw.insert_node(cq, min_len, b), se),
                    Corner::SE => (nw, ne, sw, se.insert_node(cq, min_len, b)),
                };
                let ghost new_cell = Cell::Internal(
                    Box::new(nw.cell()),
                    Box::new(ne.cell()),
                    Box::new(sw.cell()),
                    Box::new(se.cell()),
                );
                proof {
                    assert(new_cell == old_cell.with_kid(k, ins(cq, old_cell.kid(k), b, min_len)));
                    assert(new_cell == ins(q, old_cell, b, min_len));
                    lemma_with_kid(old_cell, k, new_cell.kid(k), b);
                    assert(new_cell.wf(q, min_len));
                    lemma_contents_held(new_cell, q, min_len);
                    lemma_moments_bounded(new_cell.contents(), q);
                    let m = total(new_cell.contents(), |x: Body| mass_of(x));
                    let w = WORLD_LIMIT as int;
                    assert(w * m <= 0x1_0000_0000_0000 * 0x1_0000_0000_0000_0000) by (nonlinear_arith)
                        requires
                            0 <= m <= 0xffff_ffff_ffff_ffff,
                            w == 0x1000_0000_0000,
                    ;
                    lemma_moment_fits(b);
                }
                let mass = mass + b.mass as u64;
                let moment_x = moment_x + (b.mass as i128) * (b.pos.x as i128);
                let moment_y = moment_y + (b.mass as i128) * (b.pos.y as i128);
                Node::Internal(Box::new(Branch { mass, moment_x, moment_y, nw, ne, sw, se }))
            },
        }
    }
}

/// Whether `p` lies within the world's bounds, where every query position must lie.
pub open spec fn in_world(p: Point) -> bool {
    -WORLD_LIMIT <= p.x < WORLD_LIMIT && -WORLD_LIMIT <= p.y < WORLD_LIMIT
}

/// Whether a query at `p` takes the internal cell `c` over `q` as a single mass:
/// `len / d < theta_milli / 1000`, where `d` is the distance from `p` to the
/// cell's center of mass rounded down to the grid.
pub open spec fn taken_whole(q: Quadrant, c: Cell, p: Point, theta_milli: u16) -> bool {
    let s = c.contents();
    let m = total(s, |b: Body| mass_of(b));
    let dx = total(s, |b: Body| moment_x_of(b)) / m - p.x;
    let dy = total(s, |b: Body| moment_y_of(b)) / m - p.y;
    &&& m > 0
    &&& q.len * q.len * 1_000_000 < theta_milli * theta_milli * (dx * dx + dy * dy)
}

/// The bodies of identity `id` that a query at `p` meets in cell `c` over `q`:
/// those in the leaf on the path from `c` down to `p`, none where `p` lies
/// outside `q`.
pub open spec fn own(q: Quadrant, c: Cell, id: u64, p: Point) -> Seq<Body>
    decreases c,
{
    if !q.holds(p) {
        Seq::empty()
    } else {
        match c {
            Cell::Empty => Seq::empty(),
            Cell::Leaf(s) => selves(s, id),
            Cell::Internal(nw, ne, sw, se) => match q.corner_for(p) {
                Corner::NW => own(q.child(Corner::NW), *nw, id, p),
                Corner::NE => own(q.child(Corner::NE), *ne, id, p),
                Corner::SW => own(q.child(Corner::SW), *sw, id, p),
                Corner::SE => own(q.child(Corner::SE), *se, id, p),
            },
        }
    }
}

/// The aggregate of cell `c` without the bodies `o`.
pub open spec fn trimmed(c: Cell, o: Seq<Body>) -> Source {
    let s = c.contents();
    Source {
        mass: (total(s, |b: Body| mass_of(b)) - total(o, |b: Body| mass_of(b))) as u64,
        moment_x: (total(s, |b: Body| moment_x_of(b)) - total(o, |b: Body| moment_x_of(b))) as i128,
        moment_y: (total(s, |b: Body| moment_y_of(b)) - total(o, |b: Body| moment_y_of(b))) as i128,
    }
}

/// The sources acting on the body `id` at `p`: no source from an empty cell; each
/// body of a leaf but those of identity `id` on its own; an internal cell, where
/// `taken_whole` holds, as one mass: its aggregate less the bodies of identity `id`
/// that `own` finds in it, and nothing where no mass is left; else the sources of
/// its four children. The opening test measures the distance to the center of
/// mass rounded down to the grid, not to the exact one.
pub open spec fn sources(q: Quadrant, c: Cell, id: u64, p: Point, theta_milli: u16) -> Seq<Source>
    decreases c,
{
    match c {
        Cell::Empty => Seq::empty(),
        Cell::Leaf(s) => body_sources(others(s, id)),
        Cell::Internal(nw, ne, sw, se) => {
            if taken_whole(q, c, p, theta_milli) {
                let r = trimmed(c, own(q, c, id, p));
                if r.mass == 0 {
                    Seq::empty()
                } else {
                    seq![r]
                }
            } else {
                sources(q.child(Corner::NW), *nw, id, p, theta_milli) + sources(
                    q.child(Corner::NE),
                    *ne,
                    id,
                    p,
                    theta_milli,
                ) + sources(q.child(Corner::SW), *sw, id, p, theta_milli) + sources(
                    q.child(Corner::SE),
                    *se,
                    id,
                    p,
                    theta_milli,
                )
            }
        },
    }
}

/// The center of mass on one axis, rounded down: `w / m` for moments `w` of bodies
/// that lie in `[lo, lo + len)`.
fn center_coord(w: i128, m: u64, lo: i64, len: u64) -> (r: i64)
    requires
        m >= 1,
        lo * m <= w <= (lo + len - 1) * m,
        -WORLD_LIMIT <= lo,
        lo + len <= WORLD_LIMIT,
        len >= 1,
    ensures
        r == w as int / m as int,
        lo <= r < lo + len,
{
    let ghost mi = m as int;
    proof {
        assert(0 <= (w - lo * mi) <= (len - 1) * mi) by (nonlinear_arith)
            requires
                lo * mi <= w <= (lo + len - 1) * mi,
        ;
        assert((len - 1) * mi <= 0x1000_0000_0000_0000 * 0x1_0000_0000_0000_0000) by (nonlinear_arith)
            requires
                0 <= len - 1 <= 0x1000_0000_0000_0000,
                0 <= mi <= 0xffff_ffff_ffff_ffff,
        ;
        assert(mi * lo == lo * mi) by (nonlinear_arith);
        assert(-0x1000_0000_0000 * 0x1_0000_0000_0000_0000 <= mi * lo <= 0x1000_0000_0000
            * 0x1_0000_0000_0000_0000) by (nonlinear_arith)
            requires
                -0x1000_0000_0000 <= lo <= 0x1000_0000_0000,
                0 <= mi <= 0xffff_ffff_ffff_ffff,
        ;
    }
    let off = w - (m as i128) * (lo as i128);
    let qt = (off as u128) / (m as u128);
    proof {
        let o = off as int;
        lemma_fundamental_div_mod(o, mi);
        lemma_div_is_ordered(o, (len - 1) * mi, mi);
        lemma_div_multiples_vanish(len - 1, mi);
        assert((len - 1) * mi == mi * (len - 1)) by (nonlinear_arith);
        assert(qt == o / mi);
        assert(0 <= qt <= len - 1);
        assert(0 <= o % mi < mi);
        assert(w == mi * (lo + qt) + o % mi) by (nonlinear_arith)
            requires
                o == w - mi * lo,
                o == mi * qt + o % mi,
        ;
        lemma_div_multiples_vanish_fancy(lo + qt, o % mi, mi);
    }
    lo + qt as i64
}

/// Whether a cell of side `len` with mass `m` and moments `(wx, wy)`, lying in
/// `q`, is far enough from `p` to be taken as one mass.
fn far_enough(q: &Quadrant, m: u64, wx: i128, wy: i128, p: Point, theta_milli: u16) -> (r: bool)
    requires
        q.wf(),
        in_world(p),
        m >= 1,
        q.min_x() * m <= wx <= (q.max_x() - 1) * m,
        q.min_y() * m <= wy <= (q.max_y() - 1) * m,
    ensures
        r == (q.len * q.len * 1_000_000 < theta_milli * theta_milli * ((wx as int / m as int - p.x) * (wx as int / m as int
            - p.x) + (wy as int / m as int - p.y) * (wy as int / m as int - p.y))),
{
    let (left, _right, bottom, _top) = q.bounds();
    let cx = center_coord(wx, m, left, q.len);
    let cy = center_coord(wy, m, bottom, q.len);
    let dx = cx as i128 - p.x as i128;
    let dy = cy as i128 - p.y as i128;
    proof {
        assert(dx * dx <= 0x400_0000_0000_0000_0000_0000) by (nonlinear_arith)
            requires
                -0x2000_0000_0000 <= dx <= 0x2000_0000_0000,
        ;
        assert(dy * dy <= 0x400_0000_0000_0000_0000_0000) by (nonlinear_arith)
            requires
                -0x2000_0000_0000 <= dy <= 0x2000_0000_0000,
        ;
        assert(dx * dx >= 0 && dy * dy >= 0) by (nonlinear_arith);
    }
    let d2 = (dx * dx + dy * dy) as u128;
    let t = theta_milli as u128;
    proof {
        assert(d2 == dx * dx + dy * dy);
        assert(d2 <= 0x800_0000_0000_0000_0000_0000);
        assert(t * t <= 0x1_0000_0000) by (nonlinear_arith)
            requires
                0 <= t <= 0xffff,
        ;
        assert(t * t * d2 <= 0x1_0000_0000 * 0x800_0000_0000_0000_0000_0000) by (nonlinear_arith)
            requires
                0 <= t * t <= 0x1_0000_0000,
                0 <= d2 <= 0x800_0000_0000_0000_0000_0000,
        ;
        assert((q.len as int) * (q.len as int) * 1_000_000 <= 0x2000_0000_0000 * 0x2000_0000_0000 * 1_000_000)
            by (nonlinear_arith)
            requires
                1 <= q.len <= 0x2000_0000_0000,
        ;
    }
    let n = q.len as u128;
    let tt = t * t;
    n * n * 1_000_000 < tt * d2
}

impl Node {
    /// Appends the sources that this node, over `q`, exerts on the body `id` at `p`.
    fn collect(&self, q: &Quadrant, min_len: u64, id: u64, p: Point, theta_milli: u16, out: &mut Vec<Source>)
        requires
            q.wf(),
            in_world(p),
            self.cell().wf(*q, min_len),
            self.sums_ok(),
        ensures
            final(out)@ == old(out)@ + sources(*q, self.cell(), id, p, theta_milli),
        decreases self,
    {
        match self {
            Node::Empty => {
                assert(final(out)@ =~= old(out)@ + Seq::<Source>::empty());
            },
            Node::Leaf(v) => {
                let ghost start = out@;
                let mut i: usize = 0;
                while i < v.len()
                    invariant
                        i <= v.len(),
                        out@ == start + body_sources(others(v@.take(i as int), id)),
                    decreases v.len() - i,
                {
                    let b = v[i];
                    proof {
                        assert(v@.take(i as int + 1).drop_last() =~= v@.take(i as int));
                        assert(v@.take(i as int + 1).last() == b);
                    }
                    if b.id != id {
                        proof {
                            lemma_moment_fits(b);
                        }
                        let src = Source {
                            mass: b.mass as u64,
                            moment_x: (b.mass as i128) * (b.pos.x as i128),
                            moment_y: (b.mass as i128) * (b.pos.y as i128),
                        };
                        out.push(src);
                        proof {
                            let o = others(v@.take(i as int), id);
                            assert(others(v@.take(i as int + 1), id) == o.push(b));
                            assert(body_sources(o.push(b)) =~= body_sources(o).push(body_source(b)));
                        }
                    }
                    i = i + 1;
                }
                assert(v@.take(v.len() as int) =~= v@);
            },
            Node::Internal(br) => {
                let ghost c = self.cell();
                proof {
                    lemma_contents_held(c, *q, min_len);
                    let s = c.contents();
                    lemma_held_ranges(s, *q);
                    if br.mass == 0 {
                        lemma_mass_zero_empty(s, *q);
                    }
                }
                let whole = br.mass >= 1 && far_enough(
                    q,
                    br.mass,
                    br.moment_x,
                    br.moment_y,
                    p,
                    theta_milli,
                );
                if whole {
                    let (om, ox, oy) = self.own_sum(q, min_len, id, p);
                    proof {
                        lemma_own(*q, c, min_len, id, p);
                        let o = own(*q, c, id, p);
                        lemma_moments_bounded(o, *q);
                        lemma_moments_bounded(c.contents(), *q);
                        let mo = total(o, |x: Body| mass_of(x));
                        let mc = total(c.contents(), |x: Body| mass_of(x));
                        assert(WORLD_LIMIT * mo <= 0x1000_0000_0000 * 0x1_0000_0000_0000_0000 && WORLD_LIMIT * mc
                            <= 0x1000_0000_0000 * 0x1_0000_0000_0000_0000) by (nonlinear_arith)
                            requires
                                0 <= mo <= 0xffff_ffff_ffff_ffff,
                                0 <= mc <= 0xffff_ffff_ffff_ffff,
                        ;
                    }
                    let rest = Source { mass: br.mass - om, moment_x: br.moment_x - ox, moment_y: br.moment_y - oy };
                    if rest.mass > 0 {
                        out.push(rest);
                    }
                    proof {
                        assert(rest == trimmed(c, own(*q, c, id, p)));
                        if rest.mass > 0 {
                            assert(out@ =~= old(out)@ + seq![rest]);
                        } else {
                            assert(out@ =~= old(out)@ + Seq::<Source>::empty());
                        }
                    }
                } else {
                    proof {
                        lemma_children_partition(*q, p);
                    }
                    let ghost start = out@;
                    br.nw.collect(&q.subquad(Corner::NW), min_len, id, p, theta_milli, out);
                    br.ne.collect(&q.subquad(Corner::NE), min_len, id, p, theta_milli, out);
                    br.sw.collect(&q.subquad(Corner::SW), min_len, id, p, theta_milli, out);
                    br.se.collect(&q.subquad(Corner::SE), min_len, id, p, theta_milli, out);
                    proof {
                        assert(out@ =~= start + sources(*q, c, id, p, theta_milli));
                    }
                }
            },
        }
    }
}

impl Node {
    /// The totals of the bodies that `own` finds in this node over `q`.
    fn own_sum(&self, q: &Quadrant, min_len: u64, id: u64, p: Point) -> (r: (u64, i128, i128))
        requires
            q.wf(),
            self.cell().wf(*q, min_len),
            self.sums_ok(),
            total(self.cell().contents(), |b: Body| mass_of(b)) <= u64::MAX,
        ensures
            r.0 == total(own(*q, self.cell(), id, p), |b: Body| mass_of(b)),
            r.1 == total(own(*q, self.cell(), id, p), |b: Body| moment_x_of(b)),
            r.2 == total(own(*q, self.cell(), id, p), |b: Body| moment_y_of(b)),
        decreases self,
    {
        if !q.contains(p) {
            return (0, 0, 0);
        }
        match self {
            Node::Empty => (0, 0, 0),
            Node::Leaf(v) => {
                let ghost s = v@;
                proof {
                    lemma_contents_held(self.cell(), *q, min_len);
                }
                let mut m: u64 = 0;
                let mut wx: i128 = 0;
                let mut wy: i128 = 0;
                let mut i: usize = 0;
                while i < v.len()
                    invariant
                        s == v@,
                        all_held(s, *q),
                        q.wf(),
                        total(s, |b: Body| mass_of(b)) <= u64::MAX,
                        i <= v.len(),
                        m == total(selves(s.take(i as int), id), |b: Body| mass_of(b)),
                        wx == total(selves(s.take(i as int), id), |b: Body| moment_x_of(b)),
                        wy == total(selves(s.take(i as int), id), |b: Body| moment_y_of(b)),
                    decreases v.len() - i,
                {
                    let b = v[i];
                    let ghost t = s.take(i as int + 1);
                    proof {
                        assert(t.drop_last() =~= s.take(i as int));
                        assert(t.last() == b);
                        assert(s =~= t + s.skip(i as int + 1));
                        lemma_total_concat(t, s.skip(i as int + 1), |x: Body| mass_of(x));
                        lemma_mass_nonneg(s.skip(i as int + 1));
                        assert(all_held(t, *q)) by {
                            assert forall|j: int| 0 <= j < t.len() implies q.holds(#[trigger] t[j].pos) && t[j].mass > 0 by {
                                assert(t[j] == s[j]);
                            }
                        }
                        lemma_filters_held(t, id, *q);
                        lemma_total_split(t, id, |x: Body| mass_of(x));
                        lemma_mass_nonneg(others(t, id));
                        lemma_moments_bounded(selves(t, id), *q);
                        let mt = total(selves(t, id), |x: Body| mass_of(x));
                        assert(WORLD_LIMIT * mt <= 0x1000_0000_0000 * 0x1_0000_0000_0000_0000) by (nonlinear_arith)
                            requires
                                0 <= mt <= 0xffff_ffff_ffff_ffff,
                        ;
                        lemma_moment_fits(b);
                        if b.id == id {
                            assert(selves(t, id).drop_last() =~= selves(s.take(i as int), id));
                            assert(selves(t, id).last() == b);
                        } else {
                            assert(selves(t, id) == selves(s.take(i as int), id));
                        }
                    }
                    if b.id == id {
                        m = m + b.mass as u64;
                        wx = wx + (b.mass as i128) * (b.pos.x as i128);
                        wy = wy + (b.mass as i128) * (b.pos.y as i128);
                    }
                    i = i + 1;
                }
                proof {
                    assert(s.take(v.len() as int) =~= s);
                }
                (m, wx, wy)
            },
            Node::Internal(br) => {
                let k = q.corner_of(p);
                let cq = q.subquad(k);
                let ghost c = self.cell();
                proof {
                    let (a, b, d, e) = (
                        br.nw.cell().contents(),
                        br.ne.cell().contents(),
                        br.sw.cell().contents(),
                        br.se.cell().contents(),
                    );
                    lemma_total4(a, b, d, e, |x: Body| mass_of(x));
                    lemma_mass_nonneg(a);
                    lemma_mass_nonneg(b);
                    lemma_mass_nonneg(d);
                    lemma_mass_nonneg(e);
                }
                match k {
                    Corner::NW => br.nw.own_sum(&cq, min_len, id, p),
                    Corner::NE => br.ne.own_sum(&cq, min_len, id, p),
                    Corner::SW => br.sw.own_sum(&cq, min_len, id, p),
                    Corner::SE => br.se.own_sum(&cq, min_len, id, p),
                }
            },
        }
    }
}

/// Bodies that a filter keeps from a held sequence are held too.
pub proof fn lemma_filters_held(s: Seq<Body>, id: u64, q: Quadrant)
    requires
        all_held(s, q),
    ensures
        all_held(others(s, id), q),
        all_held(selves(s, id), q),
{
    lemma_filters_from(s, id);
    assert forall|j: int| 0 <= j < others(s, id).len() implies q.holds(#[trigger] others(s, id)[j].pos)
        && others(s, id)[j].mass > 0 by {
        let i = choose|i: int| 0 <= i < s.len() && others(s, id)[j] == s[i];
        assert(q.holds(s[i].pos));
    }
    assert forall|j: int| 0 <= j < selves(s, id).len() implies q.holds(#[trigger] selves(s, id)[j].pos)
        && selves(s, id)[j].mass > 0 by {
        let i = choose|i: int| 0 <= i < s.len() && selves(s, id)[j] == s[i];
        assert(q.holds(s[i].pos));
    }
}

/// The bodies that `own` finds lie in the quadrant, and weigh no more than the cell.
pub proof fn lemma_own(q: Quadrant, c: Cell, min_len: u64, id: u64, p: Point)
    requires
        q.wf(),
        c.wf(q, min_len),
    ensures
        all_held(own(q, c, id, p), q),
        total(own(q, c, id, p), |b: Body| mass_of(b)) <= total(c.contents(), |b: Body| mass_of(b)),
    decreases c,
{
    lemma_contents_held(c, q, min_len);
    if q.holds(p) {
        match c {
            Cell::Empty => {},
            Cell::Leaf(s) => {
                lemma_filters_held(s, id, q);
                lemma_total_split(s, id, |b: Body| mass_of(b));
                lemma_mass_nonneg(others(s, id));
            },
            Cell::Internal(nw, ne, sw, se) => {
                let k = q.corner_for(p);
                lemma_children_partition(q, p);
                lemma_own(q.child(k), c.kid(k), min_len, id, p);
                let o = own(q, c, id, p);
                assert(o == own(q.child(k), c.kid(k), id, p));
                assert forall|i: int| 0 <= i < o.len() implies q.holds(#[trigger] o[i].pos) && o[i].mass > 0 by {
                    assert(q.child(k).holds(o[i].pos));
                    lemma_children_partition(q, o[i].pos);
                }
                let (a, b, d, e) = (nw.contents(), ne.contents(), sw.contents(), se.contents());
                lemma_total4(a, b, d, e, |x: Body| mass_of(x));
                lemma_mass_nonneg(a);
                lemma_mass_nonneg(b);
                lemma_mass_nonneg(d);
                lemma_mass_nonneg(e);
            },
        }
    } else {
        lemma_mass_nonneg(c.contents());
    }
}

/// A sequence of bodies with positive masses and a zero total mass is empty.
pub proof fn lemma_mass_zero_empty(s: Seq<Body>, q: Quadrant)
    requires
        all_held(s, q),
        total(s, |b: Body| mass_of(b)) == 0,
    ensures
        s.len() == 0,
{
    if s.len() > 0 {
        lemma_mass_nonneg(s.drop_last());
        assert(q.holds(s[s.len() - 1].pos));
    }
}

/// The largest total mass a tree holds.
pub const MAX_TOTAL_MASS: u64 = 1_099_511_627_776;

/// Why a body was not inserted.
#[derive(Clone, Copy, Debug, PartialEq, Eq, Structural)]
pub enum InsertError {
    /// The body's mass is zero.
    ZeroMass,
    /// The body lies outside the tree's root quadrant.
    OutsideRoot,
    /// The tree's total mass would exceed `MAX_TOTAL_MASS`.
    MassOverflow,
}

/// The error that inserting `b` into a tree over `q` holding `c` gives, if any.
pub open spec fn insert_error(q: Quadrant, c: Cell, b: Body) -> Option<InsertError> {
    if b.mass == 0 {
        Some(InsertError::ZeroMass)
    } else if !q.holds(b.pos) {
        Some(InsertError::OutsideRoot)
    } else if total(c.contents(), |x: Body| mass_of(x)) + b.mass > MAX_TOTAL_MASS {
        Some(InsertError::MassOverflow)
    } else {
        None
    }
}

/// The cell that inserting the bodies of `s` in order into an empty tree over `q`
/// gives, or the error of the first body that could not be inserted.
pub open spec fn built(q: Quadrant, min_len: u64, s: Seq<Body>) -> Result<Cell, InsertError>
    decreases s.len(),
{
    if s.len() == 0 {
        Ok(Cell::Empty)
    } else {
        match built(q, min_len, s.drop_last()) {
            Err(e) => Err(e),
            Ok(c) => match insert_error(q, c, s.last()) {
                Some(e) => Err(e),
                None => Ok(ins(q, c, s.last(), min_len)),
            },
        }
    }
}

/// A Barnes–Hut quadtree over a root quadrant. Leaves whose quadrant has a side of
/// at most `min_len`, or an odd one, are not split: they keep every body that
/// arrives, each one still told apart by its identity.
pub struct Quadtree {
    quad: Quadrant,
    min_len: u64,
    mass: u64,
    moment_x: i128,
    moment_y: i128,
    root: Node,
}

impl Quadtree {
    pub closed spec fn region(self) -> Quadrant {
        self.quad
    }

    pub closed spec fn leaf_len(self) -> u64 {
        self.min_len
    }

    /// The shape of the tree.
    pub closed spec fn cell(self) -> Cell {
        self.root.cell()
    }

    /// The bodies in the tree.
    pub open spec fn contents(self) -> Seq<Body> {
        self.cell().contents()
    }

    pub closed spec fn wf(self) -> bool {
        &&& self.quad.wf()
        &&& self.root.cell().wf(self.quad, self.min_len)
        &&& self.root.sums_ok()
        &&& self.mass == total(self.root.cell().contents(), |b: Body| mass_of(b))
        &&& self.moment_x == total(self.root.cell().contents(), |b: Body| moment_x_of(b))
        &&& self.moment_y == total(self.root.cell().contents(), |b: Body| moment_y_of(b))
    }

    /// What a well-formed tree guarantees of its shape.
    pub proof fn lemma_wf(self)
        requires
            self.wf(),
        ensures
            self.region().wf(),
            self.cell().wf(self.region(), self.leaf_len()),
            total(self.contents(), |b: Body| mass_of(b)) <= u64::MAX,
    {
    }

    /// An empty tree over `quad`.
    pub fn new(quad: Quadrant, min_len: u64) -> (r: Quadtree)
        requires
            quad.wf(),
        ensures
            r.wf(),
            r.region() == quad,
            r.leaf_len() == min_len,
            r.cell() == Cell::Empty,
    {
        Quadtree { quad, min_len, mass: 0, moment_x: 0, moment_y: 0, root: Node::Empty }
    }

    pub fn quadrant(&self) -> (r: Quadrant)
        ensures
            r == self.region(),
    {
        self.quad
    }

    pub fn min_len(&self) -> (r: u64)
        ensures
            r == self.leaf_len(),
    {
        self.min_len
    }

    /// The total mass of the tree and its first moments: the mass-weighted sum of
    /// the positions, so that the center of mass is `moment / mass`.
    pub fn aggregate(&self) -> (r: Source)
        requires
            self.wf(),
        ensures
            r.mass == total(self.contents(), |b: Body| mass_of(b)),
            r.moment_x == total(self.contents(), |b: Body| moment_x_of(b)),
            r.moment_y == total(self.contents(), |b: Body| moment_y_of(b)),
    {
        Source { mass: self.mass, moment_x: self.moment_x, moment_y: self.moment_y }
    }

    /// Inserts `body`, or leaves the tree as it was and says why not.
    pub fn insert(&mut self, body: Body) -> (r: Result<(), InsertError>)
        requires
            old(self).wf(),
        ensures
            final(self).wf(),
            final(self).region() == old(self).region(),
            final(self).leaf_len() == old(self).leaf_len(),
            r is Err <==> insert_error(old(self).region(), old(self).cell(), body) is Some,
            r is Err ==> r->Err_0 == insert_error(old(self).region(), old(self).cell(), body)->0
                && final(self).cell() == old(self).cell(),
            r is Ok ==> final(self).cell() == ins(old(self).region(), old(self).cell(), body, old(self).leaf_len()),
            r is Ok ==> final(self).contents().to_multiset() == old(self).contents().to_multiset().insert(body),
    {
        if body.mass == 0 {
            return Err(InsertError::ZeroMass);
        }
        if !self.quad.contains(body.pos) {
            return Err(InsertError::OutsideRoot);
        }
        if self.mass > MAX_TOTAL_MASS - body.mass as u64 {
            return Err(InsertError::MassOverflow);
        }
        let mut root = Node::Empty;
        core::mem::swap(&mut root, &mut self.root);
        let root = root.insert_node(self.quad, self.min_len, body);
        proof {
            lemma_contents_held(root.cell(), self.quad, self.min_len);
            lemma_moments_bounded(root.cell().contents(), self.quad);
            let m = total(root.cell().contents(), |x: Body| mass_of(x));
            assert(WORLD_LIMIT * m <= 0x1_0000_0000_0000 * 0x1_0000_0000_0000_0000) by (nonlinear_arith)
                requires
                    0 <= m <= 0xffff_ffff_ffff_ffff,
            ;
            lemma_moment_fits(body);
        }
        self.root = root;
        self.mass = self.mass + body.mass as u64;
        self.moment_x = self.moment_x + (body.mass as i128) * (body.pos.x as i128);
        self.moment_y = self.moment_y + (body.mass as i128) * (body.pos.y as i128);
        Ok(())
    }

    /// The sources acting on the body `id` at `pos`, with opening threshold
    /// `theta_milli / 1000`: see `sources`.
    pub fn interactions(&self, id: u64, pos: Point, theta_milli: u16) -> (r: Vec<Source>)
        requires
            self.wf(),
            in_world(pos),
        ensures
            r@ == sources(self.region(), self.cell(), id, pos, theta_milli),
    {
        let mut out: Vec<Source> = Vec::new();
        self.root.collect(&self.quad, self.min_len, id, pos, theta_milli, &mut out);
        assert(out@ =~= Seq::<Source>::empty() + sources(self.quad, self.root.cell(), id, pos, theta_milli));
        out
    }

    /// A tree over `quad` holding `bodies`, inserted in order; the error of the
    /// first body that could not be inserted otherwise.
    pub fn build(quad: Quadrant, min_len: u64, bodies: &Vec<Body>) -> (r: Result<Quadtree, InsertError>)
        requires
            quad.wf(),
        ensures
            r is Ok <==> built(quad, min_len, bodies@) is Ok,
            r is Ok ==> r->Ok_0.wf() && r->Ok_0.region() == quad && r->Ok_0.leaf_len() == min_len
                && r->Ok_0.cell() == built(quad, min_len, bodies@)->Ok_0,
            r is Ok ==> r->Ok_0.contents().to_multiset() == bodies@.to_multiset(),
            r is Err ==> r->Err_0 == built(quad, min_len, bodies@)->Err_0,
    {
        let mut t = Quadtree::new(quad, min_len);
        let mut i: usize = 0;
        while i < bodies.len()
            invariant
                i <= bodies.len(),
                t.wf(),
                t.region() == quad,
                t.leaf_len() == min_len,
                built(quad, min_len, bodies@.take(i as int)) == Ok::<Cell, InsertError>(t.cell()),
            decreases bodies.len() - i,
        {
            proof {
                assert(bodies@.take(i as int + 1).drop_last() =~= bodies@.take(i as int));
                assert(bodies@.take(i as int + 1).last() == bodies@[i as int]);
            }
            match t.insert(bodies[i]) {
                Ok(()) => {},
                Err(e) => {
                    proof {
                        lemma_built_err_stays(quad, min_len, bodies@, i as int + 1);
                    }
                    return Err(e);
                },
            }
            i = i + 1;
        }
        assert(bodies@.take(bodies.len() as int) =~= bodies@);
        proof {
            lemma_built(quad, min_len, bodies@);
        }
        Ok(t)
    }
}

/// Once a prefix of the bodies fails to build, every longer prefix fails the same way.
pub proof fn lemma_built_err_stays(q: Quadrant, min_len: u64, s: Seq<Body>, n: int)
    requires
        0 <= n <= s.len(),
        built(q, min_len, s.take(n)) is Err,
    ensures
        built(q, min_len, s) == built(q, min_len, s.take(n)),
    decreases s.len() - n,
{
    if n < s.len() {
        assert(s.take(n + 1).drop_last() =~= s.take(n));
        lemma_built_err_stays(q, min_len, s, n + 1);
    } else {
        assert(s.take(n) =~= s);
    }
}

/// `split_leaf` is a well-formed cell holding its one body.
pub proof fn lemma_split_leaf(q: Quadrant, min_len: u64, b: Body)
    requires
        q.wf(),
        splits(q, min_len),
        q.holds(b.pos),
        b.mass > 0,
    ensures
        split_leaf(q, b).wf(q, min_len),
        split_leaf(q, b).contents() == seq![b],
{
    let k = q.corner_for(b.pos);
    let c = split_leaf(q, b);
    let lc = Cell::Leaf(seq![b]);
    let e = Seq::<Body>::empty();
    lemma_children_partition(q, b.pos);
    assert(Cell::Empty.contents() == e);
    assert(lc.contents() == seq![b]);
    assert(lc.wf(q.child(k), min_len)) by {
        assert forall|i: int| 0 <= i < seq![b].len() implies q.child(k).holds(#[trigger] seq![b][i].pos)
            && seq![b][i].mass > 0 by {
            assert(seq![b][i] == b);
        }
    }
    assert forall|j: Corner| #[trigger] c.kid(j).wf(q.child(j), min_len) by {
        if j != k {
            assert(c.kid(j) == Cell::Empty);
        } else {
            assert(c.kid(j) == lc);
        }
    }
    assert(c.kid(Corner::NW).wf(q.child(Corner::NW), min_len));
    assert(c.kid(Corner::NE).wf(q.child(Corner::NE), min_len));
    assert(c.kid(Corner::SW).wf(q.child(Corner::SW), min_len));
    assert(c.kid(Corner::SE).wf(q.child(Corner::SE), min_len));
    match k {
        Corner::NW => assert(seq![b] + e + e + e =~= seq![b]),
        Corner::NE => assert(e + seq![b] + e + e =~= seq![b]),
        Corner::SW => assert(e + e + seq![b] + e =~= seq![b]),
        Corner::SE => assert(e + e + e + seq![b] =~= seq![b]),
    }
}

/// Inserting a body held by the quadrant keeps a cell well-formed and adds exactly
/// that body to its contents and totals.
pub proof fn lemma_ins(q: Quadrant, c: Cell, b: Body, min_len: u64)
    requires
        q.wf(),
        c.wf(q, min_len),
        q.holds(b.pos),
        b.mass > 0,
    ensures
        ins(q, c, b, min_len).wf(q, min_len),
        ins(q, c, b, min_len).contents().to_multiset() == c.contents().to_multiset().insert(b),
        total(ins(q, c, b, min_len).contents(), |x: Body| mass_of(x)) == total(c.contents(), |x: Body| mass_of(x))
            + mass_of(b),
        total(ins(q, c, b, min_len).contents(), |x: Body| moment_x_of(x)) == total(
            c.contents(),
            |x: Body| moment_x_of(x),
        ) + moment_x_of(b),
        total(ins(q, c, b, min_len).contents(), |x: Body| moment_y_of(x)) == total(
            c.contents(),
            |x: Body| moment_y_of(x),
        ) + moment_y_of(b),
    decreases q.len, (if c is Leaf { 1int } else { 0int }),
{
    broadcast use vstd::seq_lib::group_seq_properties;
    broadcast use vstd::multiset::group_multiset_axioms;

    lemma_total_single(b, |x: Body| mass_of(x));
    lemma_total_single(b, |x: Body| moment_x_of(x));
    lemma_total_single(b, |x: Body| moment_y_of(x));
    match c {
        Cell::Empty => {
            assert(Seq::<Body>::empty().to_multiset() =~= Multiset::<Body>::empty());
            assert(seq![b] =~= Seq::<Body>::empty().push(b));
            let r = ins(q, c, b, min_len);
            assert(r == Cell::Leaf(seq![b]));
            assert forall|i: int| 0 <= i < seq![b].len() implies q.holds(#[trigger] seq![b][i].pos)
                && seq![b][i].mass > 0 by {
                assert(seq![b][i] == b);
            }
            assert(r.wf(q, min_len));
        },
        Cell::Leaf(s) => {
            if splits(q, min_len) && s.len() == 1 {
                assert(q.holds(s[0].pos) && s[0].mass > 0);
                lemma_split_leaf(q, min_len, s[0]);
                assert(s =~= seq![s[0]]);
                lemma_ins(q, split_leaf(q, s[0]), b, min_len);
            } else {
                assert(s.push(b).drop_last() =~= s);
                assert forall|i: int| 0 <= i < s.push(b).len() implies q.holds(#[trigger] s.push(b)[i].pos)
                    && s.push(b)[i].mass > 0 by {
                    if i < s.len() {
                        assert(s.push(b)[i] == s[i]);
                    }
                }
            }
        },
        Cell::Internal(_, _, _, _) => {
            let k = q.corner_for(b.pos);
            lemma_children_partition(q, b.pos);
            lemma_ins(q.child(k), c.kid(k), b, min_len);
            let r = ins(q, c, b, min_len);
            assert(r == c.with_kid(k, ins(q.child(k), c.kid(k), b, min_len)));
            lemma_with_kid(c, k, ins(q.child(k), c.kid(k), b, min_len), b);
            assert(r.contents().to_multiset().count(b) > 0);
            r.contents().to_multiset_ensures();
            assert(r.contents().len() >= 1);
            assert forall|j: Corner| #[trigger] r.kid(j).wf(q.child(j), min_len) by {
                if j != k {
                    assert(r.kid(j) == c.kid(j));
                }
            }
            assert(r.kid(Corner::NW).wf(q.child(Corner::NW), min_len));
            assert(r.kid(Corner::NE).wf(q.child(Corner::NE), min_len));
            assert(r.kid(Corner::SW).wf(q.child(Corner::SW), min_len));
            assert(r.kid(Corner::SE).wf(q.child(Corner::SE), min_len));
        },
    }
}

/// A successful build is a well-formed cell whose contents are the given bodies.
pub proof fn lemma_built(q: Quadrant, min_len: u64, s: Seq<Body>)
    requires
        q.wf(),
        built(q, min_len, s) is Ok,
    ensures
        built(q, min_len, s)->Ok_0.wf(q, min_len),
        built(q, min_len, s)->Ok_0.contents().to_multiset() == s.to_multiset(),
        total(built(q, min_len, s)->Ok_0.contents(), |b: Body| mass_of(b)) <= u64::MAX,
    decreases s.len(),
{
    broadcast use vstd::seq_lib::group_seq_properties;
    broadcast use vstd::multiset::group_multiset_axioms;

    if s.len() == 0 {
        assert(s.to_multiset() =~= Multiset::<Body>::empty());
        assert(Cell::Empty.contents().to_multiset() =~= Multiset::<Body>::empty());
    } else {
        lemma_built(q, min_len, s.drop_last());
        let c = built(q, min_len, s.drop_last())->Ok_0;
        lemma_ins(q, c, s.last(), min_len);
        assert(s.drop_last().push(s.last()) =~= s);
    }
}

/// The quadrants of the non-empty cells of `c` over `q`, each cell before its
/// children, children in order north-west, north-east, south-west, south-east.
pub open spec fn outlines(q: Quadrant, c: Cell) -> Seq<Quadrant>
    decreases c,
{
    match c {
        Cell::Empty => Seq::empty(),
        Cell::Leaf(_) => seq![q],
        Cell::Internal(nw, ne, sw, se) => seq![q] + outlines(q.child(Corner::NW), *nw) + outlines(
            q.child(Corner::NE),
            *ne,
        ) + outlines(q.child(Corner::SW), *sw) + outlines(q.child(Corner::SE), *se),
    }
}

impl Node {
    fn collect_outlines(&self, q: &Quadrant, min_len: u64, out: &mut Vec<Quadrant>)
        requires
            q.wf(),
            self.cell().wf(*q, min_len),
            forall|i: int| 0 <= i < old(out)@.len() ==> (#[trigger] old(out)@[i]).wf(),
        ensures
            final(out)@ == old(out)@ + outlines(*q, self.cell()),
            forall|i: int| 0 <= i < final(out)@.len() ==> (#[trigger] final(out)@[i]).wf(),
        decreases self,
    {
        match self {
            Node::Empty => {
                assert(final(out)@ =~= old(out)@ + Seq::<Quadrant>::empty());
            },
            Node::Leaf(_) => {
                out.push(*q);
                assert(final(out)@ =~= old(out)@ + seq![*q]);
            },
            Node::Internal(br) => {
                let ghost start = out@;
                out.push(*q);
                proof {
                    lemma_children_partition(*q, Point { x: 0, y: 0 });
                }
                br.nw.collect_outlines(&q.subquad(Corner::NW), min_len, out);
                br.ne.collect_outlines(&q.subquad(Corner::NE), min_len, out);
                br.sw.collect_outlines(&q.subquad(Corner::SW), min_len, out);
                br.se.collect_outlines(&q.subquad(Corner::SE), min_len, out);
                assert(out@ =~= start + outlines(*q, self.cell()));
            },
        }
    }
}

impl Quadtree {
    /// The quadrant of every non-empty cell, for drawing the tree.
    pub fn quadrants(&self) -> (r: Vec<Quadrant>)
        requires
            self.wf(),
        ensures
            r@ == outlines(self.region(), self.cell()),
            forall|i: int| 0 <= i < r@.len() ==> (#[trigger] r@[i]).wf(),
    {
        let mut out: Vec<Quadrant> = Vec::new();
        self.root.collect_outlines(&self.quad, self.min_len, &mut out);
        assert(out@ =~= Seq::<Quadrant>::empty() + outlines(self.quad, self.root.cell()));
        out
    }
}

} // verus!
