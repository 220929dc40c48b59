use vstd::prelude::*;
use crate::geometry::Point;

verus! {

/// A point mass. `id` tells bodies apart, also when two of them share a position.
#[derive(Clone, Copy, Debug, PartialEq, Eq, Structural)]
pub struct Body {
    pub id: u64,
    pub mass: u32,
    pub pos: Point,
}

impl Body {
    pub fn new(id: u64, mass: u32, pos: Point) -> (r: Body)
        ensures
            r == (Body { id, mass, pos }),
    {
        Body { id, mass, pos }
    }
}

/// A point mass acting on a queried body, given by its mass and its first moments
/// (mass times position); its center of mass is `moment / mass` on each axis.
#[derive(Clone, Copy, Debug, PartialEq, Eq, Structural)]
pub struct Source {
    pub mass: u64,
    pub moment_x: i128,
    pub moment_y: i128,
}

pub open spec fn mass_of(b: Body) -> int {
    b.mass as int
}

pub open spec fn moment_x_of(b: Body) -> int {
    b.mass * b.pos.x
}

pub open spec fn moment_y_of(b: Body) -> int {
    b.mass * b.pos.y
}

/// The sum of `f` over the bodies of `s`.
pub open spec fn total(s: Seq<Body>, f: spec_fn(Body) -> int) -> int
    decreases s.len(),
{
    if s.len() == 0 {
        0
    } else {
        total(s.drop_last(), f) + f(s.last())
    }
}

/// The bodies of `s` whose identity differs from `id`, in order.
pub open spec fn others(s: Seq<Body>, id: u64) -> Seq<Body>
    decreases s.len(),
{
    if s.len() == 0 {
        Seq::empty()
    } else if s.last().id == id {
        others(s.drop_last(), id)
    } else {
        others(s.drop_last(), id).push(s.last())
    }
}

/// The bodies of `s` whose identity is `id`, in order.
pub open spec fn selves(s: Seq<Body>, id: u64) -> Seq<Body>
    decreases s.len(),
{
    if s.len() == 0 {
        Seq::empty()
    } else if s.last().id == id {
        selves(s.drop_last(), id).push(s.last())
    } else {
        selves(s.drop_last(), id)
    }
}

/// Every body of identity `id` in `s` lies at `p`.
pub open spec fn id_at(s: Seq<Body>, id: u64, p: Point) -> bool {
    forall|i: int| 0 <= i < s.len() && (#[trigger] s[i]).id == id ==> s[i].pos == p
}

/// The source that a single body makes.
pub open spec fn body_source(b: Body) -> Source {
    Source { mass: b.mass as u64, moment_x: (b.mass * b.pos.x) as i128, moment_y: (b.mass * b.pos.y) as i128 }
}

/// The sources that each body of `s` makes on its own, in order.
pub open spec fn body_sources(s: Seq<Body>) -> Seq<Source> {
    s.map_values(|b: Body| body_source(b))
}

/// The sum of `f` over the sources of `s`.
pub open spec fn source_total(s: Seq<Source>, f: spec_fn(Source) -> int) -> int
    decreases s.len(),
{
    if s.len() == 0 {
        0
    } else {
        source_total(s.drop_last(), f) + f(s.last())
    }
}

pub proof fn lemma_total_concat(a: Seq<Body>, b: Seq<Body>, f: spec_fn(Body) -> int)
    ensures
        total(a + b, f) == total(a, f) + total(b, f),
    decreases b.len(),
{
    if b.len() == 0 {
        assert(a + b =~= a);
    } else {
        assert((a + b).drop_last() =~= a + b.drop_last());
        lemma_total_concat(a, b.drop_last(), f);
    }
}

pub proof fn lemma_source_total_concat(a: Seq<Source>, b: Seq<Source>, f: spec_fn(Source) -> int)
    ensures
        source_total(a + b, f) == source_total(a, f) + source_total(b, f),
    decreases b.len(),
{
    if b.len() == 0 {
        assert(a + b =~= a);
    } else {
        assert((a + b).drop_last() =~= a + b.drop_last());
        lemma_source_total_concat(a, b.drop_last(), f);
    }
}

pub proof fn lemma_others_concat(a: Seq<Body>, b: Seq<Body>, id: u64)
    ensures
        others(a + b, id) == others(a, id) + others(b, id),
    decreases b.len(),
{
    if b.len() == 0 {
        assert(a + b =~= a);
        assert(others(a, id) + others(b, id) =~= others(a, id));
    } else {
        assert((a + b).drop_last() =~= a + b.drop_last());
        lemma_others_concat(a, b.drop_last(), id);
        assert(others(a, id) + others(b.drop_last(), id).push(b.last())
            =~= (others(a, id) + others(b.drop_last(), id)).push(b.last()));
    }
}

/// A total depends on the multiset of bodies only, not on their order.
pub proof fn lemma_total_permutation(a: Seq<Body>, b: Seq<Body>, f: spec_fn(Body) -> int)
    requires
        a.to_multiset() == b.to_multiset(),
    ensures
        total(a, f) == total(b, f),
    decreases a.len(),
{
    broadcast use vstd::seq_lib::group_seq_properties;
    broadcast use vstd::multiset::group_multiset_axioms;

    a.to_multiset_ensures();
    b.to_multiset_ensures();
    if a.len() == 0 {
        assert(b.len() == 0);
    } else {
        let x = a.last();
        assert(a.to_multiset().count(x) > 0) by {
            assert(a.contains(x)) by {
                assert(a[a.len() - 1] == x);
            }
        }
        assert(b.contains(x));
        let i = choose|i: int| 0 <= i < b.len() && b[i] == x;
        let b1 = b.subrange(0, i);
        let b2 = b.subrange(i + 1, b.len() as int);
        assert(b =~= b1 + seq![x] + b2);
        assert(b.remove(i) =~= b1 + b2);
        assert(a.drop_last() =~= a.remove(a.len() - 1));
        assert(a.drop_last().to_multiset() == a.to_multiset().remove(x));
        assert(b.remove(i).to_multiset() == b.to_multiset().remove(x));
        lemma_total_permutation(a.drop_last(), b1 + b2, f);
        lemma_total_concat(b1, b2, f);
        lemma_total_concat(b1 + seq![x], b2, f);
        lemma_total_concat(b1, seq![x], f);
        assert(seq![x].drop_last() =~= Seq::<Body>::empty());
        assert(total(seq![x], f) == f(x)) by {
            assert(seq![x].last() == x);
            assert(total(Seq::<Body>::empty(), f) == 0);
        }
        assert(total(a, f) == total(a.drop_last(), f) + f(x));
        assert(total(b, f) == total(b1, f) + f(x) + total(b2, f));
    }
}

/// The sources of a sequence of bodies add up to the bodies' own totals.
pub proof fn lemma_body_sources_total(s: Seq<Body>)
    ensures
        source_total(body_sources(s), |c: Source| c.mass as int) == total(s, |b: Body| mass_of(b)),
        source_total(body_sources(s), |c: Source| c.moment_x as int) == total(s, |b: Body| moment_x_of(b)),
        source_total(body_sources(s), |c: Source| c.moment_y as int) == total(s, |b: Body| moment_y_of(b)),
    decreases s.len(),
{
    if s.len() > 0 {
        lemma_body_sources_total(s.drop_last());
        assert(body_sources(s).drop_last() =~= body_sources(s.drop_last()));
        let b = s.last();
        lemma_moment_fits(b);
    }
}

/// A body's moments fit the moment fields of a source.
pub proof fn lemma_moment_fits(b: Body)
    ensures
        -0x8000_0000_0000_0000_0000_0000 <= b.mass * b.pos.x <= 0x8000_0000_0000_0000_0000_0000,
        -0x8000_0000_0000_0000_0000_0000 <= b.mass * b.pos.y <= 0x8000_0000_0000_0000_0000_0000,
{
    let m = b.mass as int;
    let x = b.pos.x as int;
    let y = b.pos.y as int;
    assert(0 <= m < 0x1_0000_0000);
    assert(-0x8000_0000_0000_0000 <= x < 0x8000_0000_0000_0000);
    assert(-0x8000_0000_0000_0000_0000_0000 <= m * x <= 0x8000_0000_0000_0000_0000_0000) by (nonlinear_arith)
        requires
            0 <= m < 0x1_0000_0000,
            -0x8000_0000_0000_0000 <= x < 0x8000_0000_0000_0000,
    ;
    assert(-0x8000_0000_0000_0000_0000_0000 <= m * y <= 0x8000_0000_0000_0000_0000_0000) by (nonlinear_arith)
        requires
            0 <= m < 0x1_0000_0000,
            -0x8000_0000_0000_0000 <= y < 0x8000_0000_0000_0000,
    ;
}

/// A total splits into the bodies of identity `id` and the others.
pub proof fn lemma_total_split(s: Seq<Body>, id: u64, f: spec_fn(Body) -> int)
    ensures
        total(s, f) == total(others(s, id), f) + total(selves(s, id), f),
    decreases s.len(),
{
    if s.len() > 0 {
        lemma_total_split(s.drop_last(), id, f);
        if s.last().id == id {
            assert(selves(s, id).drop_last() =~= selves(s.drop_last(), id));
        } else {
            assert(others(s, id).drop_last() =~= others(s.drop_last(), id));
        }
    }
}

pub proof fn lemma_selves_concat(a: Seq<Body>, b: Seq<Body>, id: u64)
    ensures
        selves(a + b, id) == selves(a, id) + selves(b, id),
    decreases b.len(),
{
    if b.len() == 0 {
        assert(a + b =~= a);
        assert(selves(a, id) + selves(b, id) =~= selves(a, id));
    } else {
        assert((a + b).drop_last() =~= a + b.drop_last());
        lemma_selves_concat(a, b.drop_last(), id);
        assert(selves(a, id) + selves(b.drop_last(), id).push(b.last())
            =~= (selves(a, id) + selves(b.drop_last(), id)).push(b.last()));
    }
}

/// Each body that `others` or `selves` keeps is a body of `s`.
pub proof fn lemma_filters_from(s: Seq<Body>, id: u64)
    ensures
        forall|j: int| 0 <= j < others(s, id).len() ==> exists|i: int| 0 <= i < s.len() && #[trigger] others(s, id)[j] == s[i],
        forall|j: int| 0 <= j < selves(s, id).len() ==> exists|i: int| 0 <= i < s.len() && #[trigger] selves(s, id)[j] == s[i],
        forall|j: int| 0 <= j < others(s, id).len() ==> (#[trigger] others(s, id)[j]).id != id,
    decreases s.len(),
{
    if s.len() > 0 {
        let t = s.drop_last();
        lemma_filters_from(t, id);
        let l = s.len() - 1;
        assert(s.last() == s[l]);
        assert forall|j: int| 0 <= j < others(s, id).len() implies exists|i: int| 0 <= i < s.len() && #[trigger] others(s, id)[j] == s[i] by {
            if j < others(t, id).len() {
                let i = choose|i: int| 0 <= i < t.len() && others(t, id)[j] == t[i];
                assert(others(s, id)[j] == others(t, id)[j]);
                assert(t[i] == s[i]);
            } else {
                assert(others(s, id)[j] == s[l]);
            }
        }
        assert forall|j: int| 0 <= j < selves(s, id).len() implies exists|i: int| 0 <= i < s.len() && #[trigger] selves(s, id)[j] == s[i] by {
            if j < selves(t, id).len() {
                let i = choose|i: int| 0 <= i < t.len() && selves(t, id)[j] == t[i];
                assert(selves(s, id)[j] == selves(t, id)[j]);
                assert(t[i] == s[i]);
            } else {
                assert(selves(s, id)[j] == s[l]);
            }
        }
        assert forall|j: int| 0 <= j < others(s, id).len() implies (#[trigger] others(s, id)[j]).id != id by {
            if j < others(t, id).len() {
                assert(others(s, id)[j] == others(t, id)[j]);
            }
        }
    }
}

} // verus!
