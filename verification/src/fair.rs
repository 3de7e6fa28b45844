//! Search for fair paths in a relation that is given by decision diagrams.

use crate::bdd::{current, shifted, Asg, Mgr, NodeId, BF, F};
use crate::reach::{
    after, after_set, alike, asg_of, below, bits, cube_set, fair_from, fair_hull, fair_path, find, first_at, hops,
    is_rel, is_set, join, keys_ok, layers, least_after, linked, meet, reaches, rel_at, rel_keeps, rel_of, rel_same,
    set_keeps, set_of, sets_of, visits, visits_from, BR,
};
use crate::tables::Cube;
use vstd::prelude::*;

verus! {

/// An endless path from `s` that visits every set of `fs` again and again.
pub open spec fn fair_run(s: BF, r: BR, fs: Seq<BF>, p: spec_fn(nat) -> Asg) -> bool {
    &&& s(p(0))
    &&& forall|i: nat| #[trigger] hops(r, p, i)
    &&& forall|k: int| 0 <= k < fs.len() ==> visits(#[trigger] fs[k], p)
}

/// The cubes are the beginning of the path.
pub open spec fn begins(c: Seq<Cube>, p: spec_fn(nat) -> Asg) -> bool {
    c.len() > 0 && forall|i: int| 0 <= i < c.len() ==> #[trigger] asg_of(c[i]@) == p(i as nat)
}

/// The states of an endless path from `s` are reached.
proof fn reached(s: BF, r: BR, p: spec_fn(nat) -> Asg, i: nat)
    requires
        s(p(0)),
        forall|k: nat| #[trigger] hops(r, p, k),
    ensures
        after(s, r, i, p(i)),
    decreases i,
{
    if i > 0 {
        reached(s, r, p, (i - 1) as nat);
        let f = after_set(s, r, (i - 1) as nat);
        assert(hops(r, p, (i - 1) as nat));
        assert(f(p((i - 1) as nat)) && r(p((i - 1) as nat), p(i)));
    }
}

/// The parts of a relation, each restricted by a condition on both states.
pub fn conjoined(mgr: &mut Mgr, parts: &Vec<NodeId>, c: NodeId, w: u32) -> (r: Vec<NodeId>)
    requires
        old(mgr).wf(),
        keys_ok(old(mgr)),
        is_rel(old(mgr), parts@, w),
        old(mgr).valid(c),
        old(mgr).depends_on(c, below(w)),
    ensures
        final(mgr).wf(),
        keys_ok(final(mgr)),
        final(mgr).keeps_values(old(mgr)),
        is_rel(final(mgr), r@, w),
        forall|x: Asg, y: Asg| #[trigger]
            rel_at(final(mgr), r@, x, y) == (rel_at(old(mgr), parts@, x, y) && old(mgr).eval(
                c,
                join(x, y),
            )),
{
    let ghost m0 = *mgr;
    let ghost q = below(w);
    let mut out: Vec<NodeId> = Vec::new();
    let mut i: usize = 0;
    while i < parts.len()
        invariant
            i <= parts@.len(),
            out@.len() == i,
            m0 == *old(mgr),
            q == below(w),
            m0.wf(),
            is_rel(&m0, parts@, w),
            m0.valid(c),
            m0.depends_on(c, q),
            mgr.wf(),
            keys_ok(mgr),
            mgr.keeps_values(&m0),
            forall|k: int| 0 <= k < i ==> mgr.valid(#[trigger] out@[k]) && mgr.depends_on(out@[k], q),
            forall|k: int, a: Asg|
                0 <= k < i ==> #[trigger] mgr.eval(out@[k], a) == (m0.eval(parts@[k], a) && m0.eval(
                    c,
                    a,
                )),
        decreases parts.len() - i,
    {
        let ghost m1 = *mgr;
        let p = parts[i];
        assert(m0.valid(parts@[i as int]) && m0.depends_on(parts@[i as int], q));
        let n = mgr.and(p, c);
        out.push(n);
        proof {
            assert forall|k: int| 0 <= k <= i implies mgr.valid(#[trigger] out@[k]) && mgr.depends_on(
                out@[k],
                q,
            ) by {
                assert forall|a: Asg, b: Asg| (forall|v: u32| #[trigger] q(v) ==> a(v) == b(v)) implies
                    #[trigger] mgr.eval(out@[k], a) == #[trigger] mgr.eval(out@[k], b) by {
                    if k < i {
                        assert(m1.valid(out@[k]) && m1.depends_on(out@[k], q));
                        assert(m1.eval(out@[k], a) == m1.eval(out@[k], b));
                        assert(mgr.eval(out@[k], a) == m1.eval(out@[k], a));
                        assert(mgr.eval(out@[k], b) == m1.eval(out@[k], b));
                    } else {
                        assert(m0.eval(p, a) == m0.eval(p, b));
                        assert(m0.eval(c, a) == m0.eval(c, b));
                        assert(m1.eval(p, a) == m0.eval(p, a) && m1.eval(p, b) == m0.eval(p, b));
                        assert(m1.eval(c, a) == m0.eval(c, a) && m1.eval(c, b) == m0.eval(c, b));
                    }
                }
            }
            assert forall|k: int, a: Asg| 0 <= k <= i implies #[trigger] mgr.eval(out@[k], a) == (m0.eval(
                parts@[k],
                a,
            ) && m0.eval(c, a)) by {
                if k < i {
                    assert(m1.eval(out@[k], a) == (m0.eval(parts@[k], a) && m0.eval(c, a)));
                    assert(m1.valid(out@[k]));
                } else {
                    assert(m1.eval(p, a) == m0.eval(p, a));
                    assert(m1.eval(c, a) == m0.eval(c, a));
                }
            }
        }
        i += 1;
    }
    proof {
        assert forall|x: Asg, y: Asg| #[trigger] rel_at(mgr, out@, x, y) == (rel_at(&m0, parts@, x, y) && m0.eval(
            c,
            join(x, y),
        )) by {
            let z = join(x, y);
            if rel_at(mgr, out@, x, y) {
                let k = choose|k: int| 0 <= k < out@.len() && mgr.eval(#[trigger] out@[k], z);
                assert(m0.eval(parts@[k], z));
            }
            if rel_at(&m0, parts@, x, y) && m0.eval(c, z) {
                let k = choose|k: int| 0 <= k < parts@.len() && m0.eval(#[trigger] parts@[k], z);
                assert(mgr.eval(out@[k], z));
            }
        }
    }
    out
}

/// The pairs of states of a set.
fn square(mgr: &mut Mgr, s: NodeId, w: u32) -> (r: NodeId)
    requires
        old(mgr).wf(),
        keys_ok(old(mgr)),
        is_set(old(mgr), s, w),
        w % 2 == 0,
        w <= crate::bdd::VAR_LIMIT,
    ensures
        final(mgr).wf(),
        keys_ok(final(mgr)),
        final(mgr).keeps_values(old(mgr)),
        final(mgr).valid(r),
        final(mgr).depends_on(r, below(w)),
        forall|x: Asg, y: Asg| #[trigger]
            final(mgr).eval(r, join(x, y)) == (old(mgr).eval(s, x) && old(mgr).eval(s, y)),
{
    let ghost m0 = *mgr;
    proof {
        assert forall|a: Asg, b: Asg| (forall|v: u32| #[trigger] current()(v) ==> a(v) == b(v)) implies
            #[trigger] m0.eval(s, a) == #[trigger] m0.eval(s, b) by {
            let p = bits(w);
            assert forall|v: u32| #[trigger] p(v) implies a(v) == b(v) by {
                assert(current()(v));
            }
        }
    }
    let next = mgr.shift(s, 1);
    let ghost m1 = *mgr;
    let both = mgr.and(s, next);
    let ghost m2 = *mgr;
    proof {
        assert forall|x: Asg, y: Asg| #[trigger] m2.eval(both, join(x, y)) == (m0.eval(s, x) && m0.eval(s, y)) by {
            let z = join(x, y);
            assert(m1.eval(s, z) == m0.eval(s, z));
            assert(m1.eval(next, z) == m0.eval(s, shifted(z, true)));
            let p = bits(w);
            assert(forall|v: u32| #[trigger] p(v) ==> z(v) == x(v));
            let y2 = shifted(z, true);
            assert(forall|v: u32| #[trigger] p(v) ==> y2(v) == y(v));
            assert(m0.eval(s, z) == m0.eval(s, x));
            assert(m0.eval(s, y2) == m0.eval(s, y));
        }
        let q = below(w);
        assert forall|a: Asg, b: Asg| (forall|v: u32| #[trigger] q(v) ==> a(v) == b(v)) implies #[trigger] m2.eval(
            both,
            a,
        ) == #[trigger] m2.eval(both, b) by {
            let p = bits(w);
            let a2 = shifted(a, true);
            let b2 = shifted(b, true);
            assert forall|v: u32| #[trigger] p(v) implies a(v) == b(v) by {
                assert(q(v));
            }
            assert forall|v: u32| #[trigger] p(v) implies a2(v) == b2(v) by {
                assert(q((v + 1) as u32));
            }
            assert(m0.eval(s, a) == m0.eval(s, b));
            assert(m0.eval(s, a2) == m0.eval(s, b2));
            assert(m1.eval(s, a) == m0.eval(s, a) && m1.eval(s, b) == m0.eval(s, b));
            assert(m1.eval(next, a) == m0.eval(s, a2) && m1.eval(next, b) == m0.eval(s, b2));
        }
    }
    both
}

/// A path that follows another where that one ends.
proof fn joined(r: BR, c: Seq<Cube>, p: Seq<Cube>)
    requires
        c.len() > 0,
        linked(r, c),
        linked(r, p),
        p.len() > 1 ==> r(asg_of(c[c.len() - 1]@), asg_of(p[1]@)),
        p.len() > 0,
    ensures
        linked(r, c + p.skip(1)),
{
    let d = c + p.skip(1);
    assert forall|k: int| 0 <= k < d.len() - 1 implies r(asg_of((#[trigger] d[k])@), asg_of(d[k + 1]@)) by {
        if k + 1 < c.len() {
            assert(d[k] == c[k] && d[k + 1] == c[k + 1]);
        } else if k < c.len() {
            assert(d[k + 1] == p[1]);
        } else {
            let e = k - c.len() + 1;
            assert(d[k] == p[e] && d[k + 1] == p[e + 1]);
        }
    }
}

/// A path into a set every state of which begins a fair path is the beginning of a fair path.
proof fn fair_end(s: BF, r: BR, fs: Seq<BF>, h: BF, c: Seq<Cube>)
    requires
        c.len() > 0,
        s(asg_of(c[0]@)),
        linked(r, c),
        fair_from(h, r, fs, asg_of(c[c.len() - 1]@)),
    ensures
        exists|p: spec_fn(nat) -> Asg| #[trigger] fair_run(s, r, fs, p) && begins(c, p),
{
    let n = c.len();
    let end = asg_of(c[n - 1]@);
    let tail = choose|p: spec_fn(nat) -> Asg| #[trigger] fair_path(h, r, fs, p) && p(0) == end;
    let p = |i: nat|
        if i < n {
            asg_of(c[i as int]@)
        } else {
            tail((i - n + 1) as nat)
        };
    assert forall|i: nat| #[trigger] hops(r, p, i) by {
        if i + 1 < n {
            assert(r(asg_of(c[i as int]@), asg_of(c[i as int + 1]@)));
        } else {
            let d = (i - n + 1) as nat;
            assert(hops(r, tail, d));
            assert(p(i) == tail(d));
            assert(p(i + 1) == tail(d + 1));
        }
    }
    assert forall|k: int| 0 <= k < fs.len() implies visits(#[trigger] fs[k], p) by {
        let g = fs[k];
        assert(visits(fs[k], tail));
        assert forall|i: nat| #[trigger] visits_from(g, p, i) by {
            assert(visits_from(g, tail, i + 1));
            let e = choose|e: nat| i + 1 <= e && g(#[trigger] tail(e));
            let d = (e + n - 1) as nat;
            assert(p(d) == tail(e));
            assert(i <= d && g(p(d)));
        }
    }
    assert(fair_run(s, r, fs, p) && begins(c, p));
}

/// Goes on from the end of a path to each of the sets, inside the hull.
fn tour(
    mgr: &mut Mgr,
    parts: &Vec<NodeId>,
    w: u32,
    hull: NodeId,
    fair: &Vec<NodeId>,
    cubes: &mut Vec<Cube>,
    Ghost(s): Ghost<BF>,
)
    requires
        old(mgr).wf(),
        keys_ok(old(mgr)),
        is_rel(old(mgr), parts@, w),
        is_set(old(mgr), hull, w),
        forall|i: int| 0 <= i < fair@.len() ==> is_set(old(mgr), #[trigger] fair@[i], w),
        old(cubes)@.len() > 0,
        s(asg_of(old(cubes)@[0]@)),
        linked(rel_of(old(mgr), parts@), old(cubes)@),
        old(mgr).eval(hull, asg_of(old(cubes)@[old(cubes)@.len() - 1]@)),
    ensures
        final(mgr).wf(),
        keys_ok(final(mgr)),
        final(mgr).keeps_values(old(mgr)),
        final(cubes)@.len() > 0,
        s(asg_of(final(cubes)@[0]@)),
        linked(rel_of(old(mgr), parts@), final(cubes)@),
        old(mgr).eval(hull, asg_of(final(cubes)@[final(cubes)@.len() - 1]@)),
{
    let ghost m0 = *mgr;
    let ghost rr = rel_of(&m0, parts@);
    let pairs = square(mgr, hull, w);
    let ghost m1 = *mgr;
    proof {
        rel_keeps(&m1, &m0, parts@, w);
    }
    let inner = conjoined(mgr, parts, pairs, w);
    let ghost m2 = *mgr;
    proof {
        assert forall|x: Asg, y: Asg| #[trigger] rel_of(&m2, inner@)(x, y) implies rr(x, y) by {
            assert(rel_at(&m2, inner@, x, y));
            assert(rel_of(&m1, parts@)(x, y));
        }
    }
    let mut j: usize = 0;
    while j < fair.len()
        invariant
            j <= fair@.len(),
            m0 == *old(mgr),
            m0.wf(),
            mgr.wf(),
            keys_ok(mgr),
            mgr.keeps_values(&m2),
            mgr.keeps_values(&m0),
            is_rel(&m2, inner@, w),
            is_rel(&m0, parts@, w),
            rr == rel_of(&m0, parts@),
            forall|x: Asg, y: Asg| #[trigger] rel_of(&m2, inner@)(x, y) ==> rr(x, y),
            is_set(&m0, hull, w),
            forall|k: int| 0 <= k < fair@.len() ==> is_set(&m0, #[trigger] fair@[k], w),
            cubes@.len() > 0,
            s(asg_of(cubes@[0]@)),
            linked(rr, cubes@),
            m0.eval(hull, asg_of(cubes@[cubes@.len() - 1]@)),
        decreases fair.len() - j,
    {
        let ghost t0 = *mgr;
        let ghost c0 = cubes@;
        let last: usize = cubes.len() - 1;
        let one = cube_set(mgr, &cubes[last], w);
        let ghost t1 = *mgr;
        proof {
            set_keeps(&t1, &m0, hull, w);
            assert(is_set(&m0, fair@[j as int], w));
            set_keeps(&t1, &m0, fair@[j as int], w);
        }
        let goal = meet(mgr, hull, fair[j], Ghost(w));
        let ghost t2 = *mgr;
        proof {
            rel_keeps(&t2, &m2, inner@, w);
            set_keeps(&t2, &t1, one, w);
        }
        let more = find(mgr, &inner, w, one, goal, 0, None);
        match more {
            None => {},
            Some(mut p) => {
                let ghost p0 = p@;
                proof {
                    let a = asg_of(c0[c0.len() - 1]@);
                    let b = asg_of(p0[0]@);
                    assert(set_of(&t2, one)(b));
                    assert(t1.eval(one, b));
                    assert(alike(b, a, w));
                    let e = asg_of(p0[p0.len() - 1]@);
                    assert(set_of(&t2, goal)(e));
                    assert(t1.eval(hull, e));
                    assert(set_of(&t1, hull)(e));
                    assert(m0.eval(hull, e));
                    assert forall|k: int| 0 <= k < p0.len() - 1 implies rr(
                        asg_of((#[trigger] p0[k])@),
                        asg_of(p0[k + 1]@),
                    ) by {
                        assert(rel_of(&t2, inner@)(asg_of(p0[k]@), asg_of(p0[k + 1]@)));
                        assert(rel_of(&m2, inner@)(asg_of(p0[k]@), asg_of(p0[k + 1]@)));
                    }
                    if p0.len() > 1 {
                        let y = asg_of(p0[1]@);
                        assert(rr(b, asg_of(p0[0int + 1]@)));
                        rel_same(&m0, parts@, w, b, y, a, y);
                    }
                    joined(rr, c0, p0);
                }
                let _ = p.remove(0);
                cubes.append(&mut p);
                proof {
                    assert(cubes@ =~= c0 + p0.skip(1));
                    if p0.len() > 1 {
                        assert(cubes@[cubes@.len() - 1] == p0[p0.len() - 1]);
                    } else {
                        assert(cubes@[cubes@.len() - 1] == c0[c0.len() - 1]);
                    }
                    assert(cubes@[0] == c0[0]);
                }
            },
        }
        j += 1;
    }
}

/// Searches for an endless path from `start` that visits every set of `fair` again and again. The
/// result is the beginning of such a path, which goes on until each of the sets has been visited.
pub fn fair_search(mgr: &mut Mgr, parts: &Vec<NodeId>, w: u32, start: NodeId, fair: &Vec<NodeId>) -> (res: Option<
    Vec<Cube>,
>)
    requires
        old(mgr).wf(),
        keys_ok(old(mgr)),
        is_rel(old(mgr), parts@, w),
        is_set(old(mgr), start, w),
        fair@.len() > 0,
        forall|i: int| 0 <= i < fair@.len() ==> is_set(old(mgr), #[trigger] fair@[i], w),
    ensures
        final(mgr).wf(),
        keys_ok(final(mgr)),
        final(mgr).keeps_values(old(mgr)),
        match res {
            None => forall|p: spec_fn(nat) -> Asg| !#[trigger]
                fair_run(
                    set_of(old(mgr), start),
                    rel_of(old(mgr), parts@),
                    sets_of(old(mgr), fair@),
                    p,
                ),
            Some(c) => exists|p: spec_fn(nat) -> Asg| #[trigger]
                fair_run(
                    set_of(old(mgr), start),
                    rel_of(old(mgr), parts@),
                    sets_of(old(mgr), fair@),
                    p,
                ) && begins(c@, p),
        },
{
    let ghost m0 = *mgr;
    let ghost ii = set_of(&m0, start);
    let ghost rr = rel_of(&m0, parts@);
    let ghost fs = sets_of(&m0, fair@);
    let (reach, _) = layers(mgr, parts, w, start);
    let ghost m1 = *mgr;
    proof {
        rel_keeps(&m1, &m0, parts@, w);
        assert forall|k: int| 0 <= k < fair@.len() implies is_set(&m1, #[trigger] fair@[k], w) by {
            set_keeps(&m1, &m0, fair@[k], w);
        }
        assert(sets_of(&m1, fair@) =~= fs) by {
            assert forall|k: int| 0 <= k < fair@.len() implies #[trigger] sets_of(&m1, fair@)[k] == fs[k] by {
                set_keeps(&m1, &m0, fair@[k], w);
            }
        }
    }
    let hull = fair_hull(mgr, parts, w, reach, fair);
    let ghost m2 = *mgr;
    let ghost hh = set_of(&m2, hull);
    if hull == F {
        proof {
            m2.constants_meaning();
            assert forall|p: spec_fn(nat) -> Asg| !#[trigger] fair_run(ii, rr, fs, p) by {
                if fair_run(ii, rr, fs, p) {
                    let rs = set_of(&m1, reach);
                    assert forall|i: nat| rs(#[trigger] p(i)) by {
                        reached(ii, rr, p, i);
                        assert(reaches(ii, rr, p(i)));
                        assert(m1.eval(reach, p(i)));
                    }
                    assert(fair_path(rs, rr, fs, p));
                    assert(fair_from(rs, rr, fs, p(0)));
                    assert(m2.eval(hull, p(0)));
                }
            }
        }
        return None;
    }
    proof {
        rel_keeps(&m2, &m0, parts@, w);
        set_keeps(&m2, &m0, start, w);
    }
    let first = find(mgr, parts, w, start, hull, 0, None);
    let ghost m3 = *mgr;
    match first {
        None => {
            proof {
                m2.satisfiable(hull);
                let x = choose|x: Asg| #[trigger] m2.eval(hull, x);
                assert(m1.eval(reach, x));
                assert(reaches(ii, rr, x));
                let k = choose|k: nat| #[trigger] after(ii, rr, k, x);
                let j = least_after(ii, rr, k, x);
                assert(first_at(ii, rr, j, x) && set_of(&m2, hull)(x));
                assert(false);
            }
            None
        },
        Some(p) => {
            let mut cubes = p;
            proof {
                rel_keeps(&m3, &m2, parts@, w);
                set_keeps(&m3, &m2, hull, w);
                assert forall|k: int| 0 <= k < fair@.len() implies is_set(&m3, #[trigger] fair@[k], w) by {
                    set_keeps(&m3, &m0, fair@[k], w);
                }
                assert(hh(asg_of(cubes@[cubes@.len() - 1]@)));
            }
            tour(mgr, parts, w, hull, fair, &mut cubes, Ghost(ii));
            proof {
                let end = asg_of(cubes@[cubes@.len() - 1]@);
                assert(set_of(&m3, hull)(end));
                assert(m2.eval(hull, end));
                assert(fair_from(hh, rr, fs, end));
                fair_end(ii, rr, fs, hh, cubes@);
            }
            Some(cubes)
        },
    }
}

} // verus!
