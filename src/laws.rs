use vstd::prelude::*;
use crate::body::{
    id_at, selves, lemma_total_split, lemma_selves_concat, Body, Source, total, others, body_source, body_sources, source_total, mass_of,
    moment_x_of, moment_y_of, lemma_source_total_concat, lemma_others_concat,
    lemma_total_permutation, lemma_body_sources_total, lemma_moment_fits,
};
use crate::geometry::{Corner, Point, Quadrant};
use crate::tree::{
    Cell, Quadtree, built, sources, taken_whole, all_held, lemma_contents_held, lemma_moments_bounded,
    lemma_mass_nonneg, lemma_total4, lemma_total_single, lemma_built, own, trimmed, lemma_filters_held,
    lemma_mass_zero_empty,
};
use crate::geometry::lemma_children_partition;

verus! {

proof fn lemma_source_single(x: Source, f: spec_fn(Source) -> int)
    ensures
        source_total(seq![x], f) == f(x),
{
    assert(seq![x].drop_last() =~= Seq::<Source>::empty());
    assert(seq![x].last() == x);
    assert(source_total(Seq::<Source>::empty(), f) == 0);
    assert(source_total(seq![x], f) == source_total(seq![x].drop_last(), f) + f(seq![x].last()));
}

proof fn lemma_id_at_parts(a: Seq<Body>, b: Seq<Body>, c: Seq<Body>, d: Seq<Body>, id: u64, p: Point)
    requires
        id_at(a + b + c + d, id, p),
    ensures
        id_at(a, id, p),
        id_at(b, id, p),
        id_at(c, id, p),
        id_at(d, id, p),
{
    let s = a + b + c + d;
    assert forall|i: int| 0 <= i < a.len() && (#[trigger] a[i]).id == id implies a[i].pos == p by {
        assert(s[i] == a[i]);
    }
    assert forall|i: int| 0 <= i < b.len() && (#[trigger] b[i]).id == id implies b[i].pos == p by {
        assert(s[a.len() + i] == b[i]);
    }
    assert forall|i: int| 0 <= i < c.len() && (#[trigger] c[i]).id == id implies c[i].pos == p by {
        assert(s[a.len() + b.len() + i] == c[i]);
    }
    assert forall|i: int| 0 <= i < d.len() && (#[trigger] d[i]).id == id implies d[i].pos == p by {
        assert(s[a.len() + b.len() + c.len() + i] == d[i]);
    }
}

/// No body of `s` has identity `id` where all of them lie in `q`, those of identity
/// `id` lie at `p`, and `q` does not hold `p`.
proof fn lemma_selves_none(s: Seq<Body>, q: Quadrant, id: u64, p: Point)
    requires
        all_held(s, q),
        !q.holds(p),
        id_at(s, id, p),
    ensures
        selves(s, id) == Seq::<Body>::empty(),
    decreases s.len(),
{
    if s.len() > 0 {
        let t = s.drop_last();
        assert forall|i: int| 0 <= i < t.len() && (#[trigger] t[i]).id == id implies t[i].pos == p by {
            assert(t[i] == s[i]);
        }
        assert(all_held(t, q)) by {
            assert forall|i: int| 0 <= i < t.len() implies q.holds(#[trigger] t[i].pos) && t[i].mass > 0 by {
                assert(t[i] == s[i]);
            }
        }
        lemma_selves_none(t, q, id, p);
        assert(q.holds(s[s.len() - 1].pos));
    }
}

/// Under the premise that the bodies of identity `id` lie at `p`, `own` finds
/// exactly them, in the order of the contents.
proof fn lemma_own_selves(q: Quadrant, c: Cell, min_len: u64, id: u64, p: Point)
    requires
        q.wf(),
        c.wf(q, min_len),
        id_at(c.contents(), id, p),
    ensures
        own(q, c, id, p) == selves(c.contents(), id),
    decreases c,
{
    lemma_contents_held(c, q, min_len);
    if !q.holds(p) {
        lemma_selves_none(c.contents(), q, id, p);
    } else {
        match c {
            Cell::Empty => {
                assert(selves(Seq::<Body>::empty(), id) == Seq::<Body>::empty());
            },
            Cell::Leaf(_) => {},
            Cell::Internal(nw, ne, sw, se) => {
                let k = q.corner_for(p);
                lemma_children_partition(q, p);
                let (a, b, d, e) = (nw.contents(), ne.contents(), sw.contents(), se.contents());
                lemma_id_at_parts(a, b, d, e, id, p);
                lemma_selves_concat(a, b, id);
                lemma_selves_concat(a + b, d, id);
                lemma_selves_concat(a + b + d, e, id);
                lemma_contents_held(*nw, q.child(Corner::NW), min_len);
                lemma_contents_held(*ne, q.child(Corner::NE), min_len);
                lemma_contents_held(*sw, q.child(Corner::SW), min_len);
                lemma_contents_held(*se, q.child(Corner::SE), min_len);
                let z = Seq::<Body>::empty();
                match k {
                    Corner::NW => {
                        lemma_own_selves(q.child(k), *nw, min_len, id, p);
                        lemma_selves_none(b, q.child(Corner::NE), id, p);
                        lemma_selves_none(d, q.child(Corner::SW), id, p);
                        lemma_selves_none(e, q.child(Corner::SE), id, p);
                        assert(selves(a, id) + z + z + z =~= selves(a, id));
                    },
                    Corner::NE => {
                        lemma_own_selves(q.child(k), *ne, min_len, id, p);
                        lemma_selves_none(a, q.child(Corner::NW), id, p);
                        lemma_selves_none(d, q.child(Corner::SW), id, p);
                        lemma_selves_none(e, q.child(Corner::SE), id, p);
                        assert(z + selves(b, id) + z + z =~= selves(b, id));
                    },
                    Corner::SW => {
                        lemma_own_selves(q.child(k), *sw, min_len, id, p);
                        lemma_selves_none(a, q.child(Corner::NW), id, p);
                        lemma_selves_none(b, q.child(Corner::NE), id, p);
                        lemma_selves_none(e, q.child(Corner::SE), id, p);
                        assert(z + z + selves(d, id) + z =~= selves(d, id));
                    },
                    Corner::SE => {
                        lemma_own_selves(q.child(k), *se, min_len, id, p);
                        lemma_selves_none(a, q.child(Corner::NW), id, p);
                        lemma_selves_none(b, q.child(Corner::NE), id, p);
                        lemma_selves_none(d, q.child(Corner::SW), id, p);
                        assert(z + z + z + selves(e, id) =~= selves(e, id));
                    },
                }
            },
        }
    }
}

/// A cell taken as one mass hands out, in mass and both moments, exactly its
/// bodies other than those of the queried identity.
proof fn lemma_trimmed_others(q: Quadrant, c: Cell, min_len: u64, id: u64, p: Point)
    requires
        q.wf(),
        c.wf(q, min_len),
        total(c.contents(), |b: Body| mass_of(b)) <= u64::MAX,
        id_at(c.contents(), id, p),
    ensures
        trimmed(c, own(q, c, id, p)).mass == total(others(c.contents(), id), |b: Body| mass_of(b)),
        trimmed(c, own(q, c, id, p)).moment_x == total(others(c.contents(), id), |b: Body| moment_x_of(b)),
        trimmed(c, own(q, c, id, p)).moment_y == total(others(c.contents(), id), |b: Body| moment_y_of(b)),
        all_held(others(c.contents(), id), q),
{
    let s = c.contents();
    lemma_own_selves(q, c, min_len, id, p);
    lemma_contents_held(c, q, min_len);
    lemma_filters_held(s, id, q);
    lemma_total_split(s, id, |b: Body| mass_of(b));
    lemma_total_split(s, id, |b: Body| moment_x_of(b));
    lemma_total_split(s, id, |b: Body| moment_y_of(b));
    let o = others(s, id);
    lemma_mass_nonneg(selves(s, id));
    lemma_moments_bounded(o, q);
    let m = total(o, |b: Body| mass_of(b));
    assert(0x1000_0000_0000 * m <= 0x1000_0000_0000 * 0x1_0000_0000_0000_0000) by (nonlinear_arith)
        requires
            0 <= m <= 0xffff_ffff_ffff_ffff,
    ;
}

/// Under a well-formed cell, the sources of a query add up, in mass and in both
/// moments, to the bodies of the cell other than those of the queried identity.
pub proof fn lemma_sources_account(q: Quadrant, c: Cell, min_len: u64, id: u64, p: Point, theta_milli: u16)
    requires
        q.wf(),
        c.wf(q, min_len),
        total(c.contents(), |b: Body| mass_of(b)) <= u64::MAX,
        id_at(c.contents(), id, p),
    ensures
        source_total(sources(q, c, id, p, theta_milli), |x: Source| x.mass as int) == total(
            others(c.contents(), id),
            |b: Body| mass_of(b),
        ),
        source_total(sources(q, c, id, p, theta_milli), |x: Source| x.moment_x as int) == total(
            others(c.contents(), id),
            |b: Body| moment_x_of(b),
        ),
        source_total(sources(q, c, id, p, theta_milli), |x: Source| x.moment_y as int) == total(
            others(c.contents(), id),
            |b: Body| moment_y_of(b),
        ),
    decreases c,
{
    match c {
        Cell::Empty => {
            assert(others(Seq::<Body>::empty(), id) == Seq::<Body>::empty());
        },
        Cell::Leaf(s) => {
            lemma_body_sources_total(others(s, id));
        },
        Cell::Internal(nw, ne, sw, se) => {
            let s = c.contents();
            if taken_whole(q, c, p, theta_milli) {
                lemma_trimmed_others(q, c, min_len, id, p);
                let x = trimmed(c, own(q, c, id, p));
                if x.mass == 0 {
                    lemma_mass_zero_empty(others(s, id), q);
                    assert(others(s, id) == Seq::<Body>::empty());
                } else {
                    lemma_source_single(x, |x: Source| x.mass as int);
                    lemma_source_single(x, |x: Source| x.moment_x as int);
                    lemma_source_single(x, |x: Source| x.moment_y as int);
                }
            } else {
                let (a, b, d, e) = (nw.contents(), ne.contents(), sw.contents(), se.contents());
                lemma_id_at_parts(a, b, d, e, id, p);
                lemma_total4(a, b, d, e, |x: Body| mass_of(x));
                lemma_mass_nonneg(a);
                lemma_mass_nonneg(b);
                lemma_mass_nonneg(d);
                lemma_mass_nonneg(e);
                lemma_sources_account(q.child(Corner::NW), *nw, min_len, id, p, theta_milli);
                lemma_sources_account(q.child(Corner::NE), *ne, min_len, id, p, theta_milli);
                lemma_sources_account(q.child(Corner::SW), *sw, min_len, id, p, theta_milli);
                lemma_sources_account(q.child(Corner::SE), *se, min_len, id, p, theta_milli);
                let sa = sources(q.child(Corner::NW), *nw, id, p, theta_milli);
                let sb = sources(q.child(Corner::NE), *ne, id, p, theta_milli);
                let sd = sources(q.child(Corner::SW), *sw, id, p, theta_milli);
                let se2 = sources(q.child(Corner::SE), *se, id, p, theta_milli);
                lemma_others_concat(a, b, id);
                lemma_others_concat(a + b, d, id);
                lemma_others_concat(a + b + d, e, id);
                let (oa, ob, od, oe) = (others(a, id), others(b, id), others(d, id), others(e, id));
                lemma_total4(oa, ob, od, oe, |x: Body| mass_of(x));
                lemma_total4(oa, ob, od, oe, |x: Body| moment_x_of(x));
                lemma_total4(oa, ob, od, oe, |x: Body| moment_y_of(x));
                lemma_source_total4(sa, sb, sd, se2, |x: Source| x.mass as int);
                lemma_source_total4(sa, sb, sd, se2, |x: Source| x.moment_x as int);
                lemma_source_total4(sa, sb, sd, se2, |x: Source| x.moment_y as int);
            }
        },
    }
}

proof fn lemma_source_total4(
    a: Seq<Source>,
    b: Seq<Source>,
    c: Seq<Source>,
    d: Seq<Source>,
    f: spec_fn(Source) -> int,
)
    ensures
        source_total(a + b + c + d, f) == source_total(a, f) + source_total(b, f) + source_total(c, f)
            + source_total(d, f),
{
    lemma_source_total_concat(a, b, f);
    lemma_source_total_concat(a + b, c, f);
    lemma_source_total_concat(a + b + c, d, f);
}

/// With a zero threshold no cell is taken as one mass: the sources are exactly the
/// other bodies, one each, in the order of the contents.
pub proof fn lemma_theta_zero_exact(q: Quadrant, c: Cell, id: u64, p: Point)
    ensures
        sources(q, c, id, p, 0) == body_sources(others(c.contents(), id)),
    decreases c,
{
    match c {
        Cell::Empty => {
            assert(body_sources(others(Seq::<Body>::empty(), id)) =~= Seq::<Source>::empty());
        },
        Cell::Leaf(s) => {},
        Cell::Internal(nw, ne, sw, se) => {
            let s = c.contents();
            let m = total(s, |b: Body| mass_of(b));
            let dx = total(s, |b: Body| moment_x_of(b)) / m - p.x;
            let dy = total(s, |b: Body| moment_y_of(b)) / m - p.y;
            assert(q.len * q.len * 1_000_000 >= 0) by (nonlinear_arith);
            assert(0 * 0 * (dx * dx + dy * dy) == 0) by (nonlinear_arith);
            assert(!taken_whole(q, c, p, 0));
            lemma_theta_zero_exact(q.child(Corner::NW), *nw, id, p);
            lemma_theta_zero_exact(q.child(Corner::NE), *ne, id, p);
            lemma_theta_zero_exact(q.child(Corner::SW), *sw, id, p);
            lemma_theta_zero_exact(q.child(Corner::SE), *se, id, p);
            let (a, b, d, e) = (nw.contents(), ne.contents(), sw.contents(), se.contents());
            lemma_others_concat(a, b, id);
            lemma_others_concat(a + b, d, id);
            lemma_others_concat(a + b + d, e, id);
            let (oa, ob, od, oe) = (others(a, id), others(b, id), others(d, id), others(e, id));
            assert(body_sources(oa + ob + od + oe) =~= body_sources(oa) + body_sources(ob) + body_sources(od)
                + body_sources(oe));
        },
    }
}

/// Where at most one body other than the queried identity is in the cell, the
/// query yields that body alone, as its own source, or nothing.
pub proof fn lemma_single_other(q: Quadrant, c: Cell, min_len: u64, id: u64, p: Point, theta_milli: u16)
    requires
        q.wf(),
        c.wf(q, min_len),
        total(c.contents(), |b: Body| mass_of(b)) <= u64::MAX,
        id_at(c.contents(), id, p),
        others(c.contents(), id).len() <= 1,
    ensures
        others(c.contents(), id).len() == 0 ==> sources(q, c, id, p, theta_milli) == Seq::<Source>::empty(),
        others(c.contents(), id).len() == 1 ==> sources(q, c, id, p, theta_milli) == seq![
            body_source(others(c.contents(), id)[0]),
        ],
    decreases c,
{
    match c {
        Cell::Empty => {
            assert(others(Seq::<Body>::empty(), id) == Seq::<Body>::empty());
        },
        Cell::Leaf(s) => {
            let o = others(s, id);
            if o.len() == 0 {
                assert(body_sources(o) =~= Seq::<Source>::empty());
            } else {
                assert(body_sources(o) =~= seq![body_source(o[0])]);
            }
        },
        Cell::Internal(nw, ne, sw, se) => {
            let s = c.contents();
            if taken_whole(q, c, p, theta_milli) {
                lemma_trimmed_others(q, c, min_len, id, p);
                let o = others(s, id);
                let r = trimmed(c, own(q, c, id, p));
                if o.len() == 0 {
                    assert(total(o, |b: Body| mass_of(b)) == 0);
                } else {
                    let x = o[0];
                    assert(o =~= seq![x]);
                    lemma_total_single(x, |b: Body| mass_of(b));
                    lemma_total_single(x, |b: Body| moment_x_of(b));
                    lemma_total_single(x, |b: Body| moment_y_of(b));
                    lemma_moment_fits(x);
                    assert(q.holds(o[0].pos) && o[0].mass > 0);
                    assert(r == body_source(x));
                }
            } else {
                let (a, b, d, e) = (nw.contents(), ne.contents(), sw.contents(), se.contents());
                lemma_id_at_parts(a, b, d, e, id, p);
                lemma_total4(a, b, d, e, |x: Body| mass_of(x));
                lemma_mass_nonneg(a);
                lemma_mass_nonneg(b);
                lemma_mass_nonneg(d);
                lemma_mass_nonneg(e);
                lemma_others_concat(a, b, id);
                lemma_others_concat(a + b, d, id);
                lemma_others_concat(a + b + d, e, id);
                let (oa, ob, od, oe) = (others(a, id), others(b, id), others(d, id), others(e, id));
                assert(others(s, id) == oa + ob + od + oe);
                lemma_single_other(q.child(Corner::NW), *nw, min_len, id, p, theta_milli);
                lemma_single_other(q.child(Corner::NE), *ne, min_len, id, p, theta_milli);
                lemma_single_other(q.child(Corner::SW), *sw, min_len, id, p, theta_milli);
                lemma_single_other(q.child(Corner::SE), *se, min_len, id, p, theta_milli);
                let sa = sources(q.child(Corner::NW), *nw, id, p, theta_milli);
                let sb = sources(q.child(Corner::NE), *ne, id, p, theta_milli);
                let sd = sources(q.child(Corner::SW), *sw, id, p, theta_milli);
                let se2 = sources(q.child(Corner::SE), *se, id, p, theta_milli);
                let all = oa + ob + od + oe;
                if oa.len() == 1 {
                    assert(all[0] == oa[0]);
                    assert(sa + sb + sd + se2 =~= sa);
                } else if ob.len() == 1 {
                    assert(all[0] == ob[0]);
                    assert(sa + sb + sd + se2 =~= sb);
                } else if od.len() == 1 {
                    assert(all[0] == od[0]);
                    assert(sa + sb + sd + se2 =~= sd);
                } else if oe.len() == 1 {
                    assert(all[0] == oe[0]);
                    assert(sa + sb + sd + se2 =~= se2);
                } else {
                    assert(sa + sb + sd + se2 =~= Seq::<Source>::empty());
                }
            }
        },
    }
}

/// Self-exclusion: the sources acting on a body of a tree add up, in mass and in
/// both moments, to exactly the other bodies of the tree. No body of the queried
/// identity contributes, and every other body contributes once, whether on its
/// own or inside a cell taken as one mass, also where it shares the queried
/// body's position: a cell taken whole that holds the queried body hands out its
/// aggregate less that body.
pub proof fn lemma_query_excludes_self(t: Quadtree, b: Body, theta_milli: u16)
    requires
        t.wf(),
        id_at(t.contents(), b.id, b.pos),
    ensures
        source_total(sources(t.region(), t.cell(), b.id, b.pos, theta_milli), |x: Source| x.mass as int)
            == total(others(t.contents(), b.id), |x: Body| mass_of(x)),
        source_total(sources(t.region(), t.cell(), b.id, b.pos, theta_milli), |x: Source| x.moment_x as int)
            == total(others(t.contents(), b.id), |x: Body| moment_x_of(x)),
        source_total(sources(t.region(), t.cell(), b.id, b.pos, theta_milli), |x: Source| x.moment_y as int)
            == total(others(t.contents(), b.id), |x: Body| moment_y_of(x)),
{
    t.lemma_wf();
    lemma_sources_account(t.region(), t.cell(), t.leaf_len(), b.id, b.pos, theta_milli);
}

/// As the threshold goes to zero the query becomes the exact pairwise sum: at zero
/// every other body of the tree is a source of its own and no cell is taken whole.
pub proof fn lemma_query_exact_at_zero(t: Quadtree, id: u64, pos: Point)
    ensures
        sources(t.region(), t.cell(), id, pos, 0) == body_sources(others(t.contents(), id)),
{
    lemma_theta_zero_exact(t.region(), t.cell(), id, pos);
}

/// With two bodies only, each one's query yields exactly the other body as its
/// one source, whatever the threshold (a cell holding both that is taken whole
/// hands out its aggregate less the queried body), so the tree adds no error and
/// the forces that the two-body law gives point along the line joining them, in
/// opposite directions.
pub proof fn lemma_two_bodies(t: Quadtree, b1: Body, b2: Body, theta_milli: u16)
    requires
        t.wf(),
        t.contents().to_multiset() == seq![b1, b2].to_multiset(),
        b1.id != b2.id,
    ensures
        sources(t.region(), t.cell(), b1.id, b1.pos, theta_milli) == seq![body_source(b2)],
        sources(t.region(), t.cell(), b2.id, b2.pos, theta_milli) == seq![body_source(b1)],
{
    broadcast use vstd::seq_lib::group_seq_properties;
    broadcast use vstd::multiset::group_multiset_axioms;

    t.lemma_wf();
    let s = t.contents();
    let pair = seq![b1, b2];
    s.to_multiset_ensures();
    pair.to_multiset_ensures();
    assert(s.len() == 2);
    assert(pair =~= Seq::<Body>::empty().push(b1).push(b2));
    assert(s =~= Seq::<Body>::empty().push(s[0]).push(s[1]));
    Seq::<Body>::empty().to_multiset_ensures();
    Seq::<Body>::empty().push(b1).to_multiset_ensures();
    Seq::<Body>::empty().push(s[0]).to_multiset_ensures();
    assert(Seq::<Body>::empty().to_multiset() =~= vstd::multiset::Multiset::<Body>::empty());
    assert(b1 != b2);
    let m = s.to_multiset();
    assert(m.count(b1) == 1);
    assert(m.count(b2) == 1);
    assert((s[0] == b1 && s[1] == b2) || (s[0] == b2 && s[1] == b1));
    let e = Seq::<Body>::empty();
    let s0 = seq![s[0]];
    assert(s.drop_last() =~= s0);
    assert(s0.drop_last() =~= e);
    assert(others(e, b1.id) == e && others(e, b2.id) == e);
    assert(others(s0, b1.id) == (if s[0].id == b1.id { e } else { e.push(s[0]) }));
    assert(others(s0, b2.id) == (if s[0].id == b2.id { e } else { e.push(s[0]) }));
    assert(others(s, b1.id) == (if s[1].id == b1.id { others(s0, b1.id) } else { others(s0, b1.id).push(s[1]) }));
    assert(others(s, b2.id) == (if s[1].id == b2.id { others(s0, b2.id) } else { others(s0, b2.id).push(s[1]) }));
    assert(others(s, b1.id) =~= seq![b2]);
    assert(others(s, b2.id) =~= seq![b1]);
    assert(id_at(s, b1.id, b1.pos));
    assert(id_at(s, b2.id, b2.pos));
    lemma_single_other(t.region(), t.cell(), t.leaf_len(), b1.id, b1.pos, theta_milli);
    lemma_single_other(t.region(), t.cell(), t.leaf_len(), b2.id, b2.pos, theta_milli);
}

/// Building from bodies in any order gives the same root aggregate: the total mass
/// and the mass-weighted sums of the positions, hence the same center of mass.
pub proof fn lemma_insertion_order_free(q: Quadrant, min_len: u64, s1: Seq<Body>, s2: Seq<Body>)
    requires
        q.wf(),
        s1.to_multiset() == s2.to_multiset(),
        built(q, min_len, s1) is Ok,
        built(q, min_len, s2) is Ok,
    ensures
        total(built(q, min_len, s1)->Ok_0.contents(), |b: Body| mass_of(b)) == total(s1, |b: Body| mass_of(b)),
        total(built(q, min_len, s1)->Ok_0.contents(), |b: Body| moment_x_of(b)) == total(
            s1,
            |b: Body| moment_x_of(b),
        ),
        total(built(q, min_len, s1)->Ok_0.contents(), |b: Body| moment_y_of(b)) == total(
            s1,
            |b: Body| moment_y_of(b),
        ),
        total(built(q, min_len, s1)->Ok_0.contents(), |b: Body| mass_of(b)) == total(
            built(q, min_len, s2)->Ok_0.contents(),
            |b: Body| mass_of(b),
        ),
        total(built(q, min_len, s1)->Ok_0.contents(), |b: Body| moment_x_of(b)) == total(
            built(q, min_len, s2)->Ok_0.contents(),
            |b: Body| moment_x_of(b),
        ),
        total(built(q, min_len, s1)->Ok_0.contents(), |b: Body| moment_y_of(b)) == total(
            built(q, min_len, s2)->Ok_0.contents(),
            |b: Body| moment_y_of(b),
        ),
{
    lemma_built(q, min_len, s1);
    lemma_built(q, min_len, s2);
    let c1 = built(q, min_len, s1)->Ok_0.contents();
    let c2 = built(q, min_len, s2)->Ok_0.contents();
    lemma_total_permutation(c1, s1, |b: Body| mass_of(b));
    lemma_total_permutation(c1, s1, |b: Body| moment_x_of(b));
    lemma_total_permutation(c1, s1, |b: Body| moment_y_of(b));
    lemma_total_permutation(c2, s2, |b: Body| mass_of(b));
    lemma_total_permutation(c2, s2, |b: Body| moment_x_of(b));
    lemma_total_permutation(c2, s2, |b: Body| moment_y_of(b));
    lemma_total_permutation(s1, s2, |b: Body| mass_of(b));
    lemma_total_permutation(s1, s2, |b: Body| moment_x_of(b));
    lemma_total_permutation(s1, s2, |b: Body| moment_y_of(b));
}

/// Building twice from the same bodies gives the same tree, and querying it twice
/// for the same body gives the same sources.
pub proof fn lemma_rebuild_identical(
    q: Quadrant,
    min_len: u64,
    s1: Seq<Body>,
    s2: Seq<Body>,
    id: u64,
    pos: Point,
    theta_milli: u16,
)
    requires
        s1 == s2,
        built(q, min_len, s1) is Ok,
    ensures
        built(q, min_len, s1) == built(q, min_len, s2),
        sources(q, built(q, min_len, s1)->Ok_0, id, pos, theta_milli) == sources(
            q,
            built(q, min_len, s2)->Ok_0,
            id,
            pos,
            theta_milli,
        ),
{
}

/// Where the opening test holds at the root, the whole tree acts on the queried
/// body as one point mass: the total mass and moments of all the other bodies,
/// hence their center of mass.
pub proof fn lemma_root_taken_whole(t: Quadtree, b: Body, theta_milli: u16)
    requires
        t.wf(),
        t.cell() is Internal,
        taken_whole(t.region(), t.cell(), b.pos, theta_milli),
        id_at(t.contents(), b.id, b.pos),
        others(t.contents(), b.id).len() > 0,
    ensures
        sources(t.region(), t.cell(), b.id, b.pos, theta_milli) == seq![
            Source {
                mass: total(others(t.contents(), b.id), |x: Body| mass_of(x)) as u64,
                moment_x: total(others(t.contents(), b.id), |x: Body| moment_x_of(x)) as i128,
                moment_y: total(others(t.contents(), b.id), |x: Body| moment_y_of(x)) as i128,
            },
        ],
{
    t.lemma_wf();
    let q = t.region();
    let c = t.cell();
    lemma_trimmed_others(q, c, t.leaf_len(), b.id, b.pos);
    let o = others(c.contents(), b.id);
    if total(o, |x: Body| mass_of(x)) == 0 {
        lemma_mass_zero_empty(o, q);
    }
}

} // verus!
