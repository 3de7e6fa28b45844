//! Encoding of transition systems as propositional formulas.
//!
//! The values of a leaf at a step are numbered; its bits at that step hold the number.

use crate::arith::{arith_out, bad, compute, leaf_sorts, rel_holds, rel_out, rel_takes, test_rel, Arith, Rel};
use crate::cnf::{ff, flip, tt, Bits, Cnf, Input, Lit};
use crate::explicit::EngineError;
use crate::fexpr::{
    all_hold, all_sort, fe_models, holds, is_condition, leaf_sort, leaf_values, number, of_number, product, sem,
    sems, some_holds, total, truth, typed, typeds, val_sort, FExpr, LeafId, Leaves, Sort, FE, LT,
};
use crate::reach::p2;
use crate::value::{models, Val, Value};
use vstd::prelude::*;

verus! {

/// The number that the bits of a leaf from `k` on hold at a step, the lowest bit first.
pub open spec fn code(a: Bits, l: u32, k: u32, step: usize, bits: nat) -> nat
    decreases bits,
{
    if bits == 0 {
        0
    } else {
        (if a(Input::Bit(l, k, step)) {
            1nat
        } else {
            0nat
        }) + 2 * code(a, l, (k + 1) as u32, step, (bits - 1) as nat)
    }
}

/// How many bits a leaf has, and its values in the order of their codes.
pub struct LeafBits {
    pub bits: u32,
    pub is_bool: bool,
    pub values: Vec<Value>,
}

/// The leaves, with the steps of the current and of the next state.
pub struct Steps<'a> {
    pub leaves: &'a Vec<LeafBits>,
    pub cur: usize,
    pub next: usize,
}

/// The content of [`Steps`].
pub ghost struct Frame {
    pub es: Seq<LeafBits>,
    pub cur: usize,
    pub next: usize,
}

impl<'a> View for Steps<'a> {
    type V = Frame;

    open spec fn view(&self) -> Frame {
        Frame { es: self.leaves@, cur: self.cur, next: self.next }
    }
}

/// The value of a leaf at a step, if the code stands for one.
pub open spec fn leaf_out(e: LeafBits, l: u32, step: usize, a: Bits) -> Option<Val> {
    let c = code(a, l, 0, step, e.bits as nat) as int;
    if c < e.values@.len() {
        Some(e.values@[c].model())
    } else {
        None
    }
}

/// The leaves' values.
pub open spec fn leaves_at(f: Frame, a: Bits) -> Leaves {
    |l: LeafId, primed: bool|
        if (l as int) < f.es.len() {
            leaf_out(
                f.es[l as int],
                l,
                if primed {
                    f.next
                } else {
                    f.cur
                },
                a,
            )
        } else {
            None
        }
}

/// The leaf's bits and values are in order.
pub open spec fn leaf_ok(e: LeafBits) -> bool {
    &&& 1 <= e.bits <= 64
    &&& e.values@.len() <= p2(e.bits as nat)
    &&& e.is_bool ==> e.bits == 1 && models(e.values@) == seq![Val::Bool(false), Val::Bool(true)]
}

/// All leaves are in order.
pub open spec fn leaves_ok(f: Frame) -> bool {
    forall|l: int| 0 <= l < f.es.len() ==> leaf_ok(#[trigger] f.es[l])
}

/// The encoded leaves are those of the given types.
pub open spec fn encodes(f: Frame, ts: Seq<LT>) -> bool {
    &&& f.es.len() == ts.len()
    &&& forall|l: int|
        0 <= l < f.es.len() ==> leaf_values(#[trigger] ts[l]) == Some(models(f.es[l].values@))
            && f.es[l].is_bool == (ts[l] is Bool)
}

/// A condition as one literal, or a value as a list of cases.
enum Enc {
    B(Lit),
    P(Vec<(Value, Lit)>),
}

/// Some case for the value `v` applies.
spec fn hit(m: &Cnf, ps: Seq<(Value, Lit)>, a: Bits, v: Val) -> bool {
    exists|i: int| 0 <= i < ps.len() && (#[trigger] ps[i]).0.model() == v && m.eval(ps[i].1, a)
}

spec fn all_valid(m: &Cnf, ps: Seq<(Value, Lit)>) -> bool {
    forall|i: int| 0 <= i < ps.len() ==> m.valid((#[trigger] ps[i]).1)
}

/// A value that depends on the assignment.
type Out = spec_fn(Bits) -> Option<Val>;

spec fn cases_ok(m: &Cnf, ps: Seq<(Value, Lit)>, o: Out) -> bool {
    &&& all_valid(m, ps)
    &&& forall|a: Bits, v: Val| #[trigger] hit(m, ps, a, v) == (o(a) == Some(v))
}

spec fn enc_ok(m: &Cnf, r: Enc, o: Out) -> bool {
    match r {
        Enc::B(n) => m.valid(n) && forall|a: Bits| #[trigger] m.eval(n, a) == holds(o(a)) && o(a)
            == truth(m.eval(n, a)),
        Enc::P(ps) => cases_ok(m, ps@, o),
    }
}

/// All cases are of one kind.
spec fn sorted(ps: Seq<(Value, Lit)>, s: Sort) -> bool {
    forall|i: int| 0 <= i < ps.len() ==> val_sort((#[trigger] ps[i]).0.model()) == s
}

spec fn enc_sorted(r: Enc, s: Sort) -> bool {
    match r {
        Enc::B(_) => s == Sort::B,
        Enc::P(ps) => sorted(ps@, s),
    }
}

/// The value of an expression under each assignment.
spec fn out_of(e: FE, es: Frame) -> Out {
    |a: Bits| sem(e, leaves_at(es, a))
}

proof fn hit_push(m: &Cnf, ps: Seq<(Value, Lit)>, x: (Value, Lit), a: Bits, v: Val)
    ensures
        hit(m, ps.push(x), a, v) == (hit(m, ps, a, v) || (x.0.model() == v && m.eval(x.1, a))),
{
    let qs = ps.push(x);
    if hit(m, ps, a, v) {
        let i = choose|i: int|
            0 <= i < ps.len() && (#[trigger] ps[i]).0.model() == v && m.eval(ps[i].1, a);
        assert(qs[i] == ps[i]);
    }
    if x.0.model() == v && m.eval(x.1, a) {
        assert(qs[ps.len() as int] == x);
    }
    if hit(m, qs, a, v) {
        let i = choose|i: int|
            0 <= i < qs.len() && (#[trigger] qs[i]).0.model() == v && m.eval(qs[i].1, a);
        if i < ps.len() {
            assert(ps[i] == qs[i]);
        }
    }
}

proof fn hit_keeps(m: &Cnf, old: &Cnf, ps: Seq<(Value, Lit)>)
    requires
        m.keeps(old),
        all_valid(old, ps),
    ensures
        all_valid(m, ps),
        forall|a: Bits, v: Val| #[trigger] hit(m, ps, a, v) == hit(old, ps, a, v),
{
    assert forall|a: Bits, v: Val| #[trigger] hit(m, ps, a, v) == hit(old, ps, a, v) by {
        if hit(m, ps, a, v) {
            let i = choose|i: int|
                0 <= i < ps.len() && (#[trigger] ps[i]).0.model() == v && m.eval(ps[i].1, a);
            assert(old.eval(ps[i].1, a));
        }
        if hit(old, ps, a, v) {
            let i = choose|i: int|
                0 <= i < ps.len() && (#[trigger] ps[i]).0.model() == v && old.eval(ps[i].1, a);
            assert(m.eval(ps[i].1, a));
        }
    }
}

/// Adds a case, merging it with one for the same value.
fn push_part(cnf: &mut Cnf, parts: &mut Vec<(Value, Lit)>, v: Value, c: Lit)
    requires
        old(cnf).wf(),
        all_valid(old(cnf), old(parts)@),
        old(cnf).valid(c),
    ensures
        final(cnf).wf(),
        final(cnf).keeps(old(cnf)),
        all_valid(final(cnf), final(parts)@),
        forall|a: Bits, w: Val| #[trigger]
            hit(final(cnf), final(parts)@, a, w) == (hit(old(cnf), old(parts)@, a, w) || (v.model()
                == w && old(cnf).eval(c, a))),
        forall|s: Sort|
            sorted(old(parts)@, s) && val_sort(v.model()) == s ==> #[trigger] sorted(
                final(parts)@,
                s,
            ),
{
    proof {
        cnf.constants_meaning();
    }
    if c == ff() {
        return ;
    }
    let ghost ps = parts@;
    let mut i: usize = 0;
    while i < parts.len()
        invariant
            i <= parts@.len(),
            parts@ == ps,
            cnf.wf(),
            *cnf == *old(cnf),
            ps == old(parts)@,
            all_valid(cnf, ps),
            cnf.valid(c),
        decreases parts.len() - i,
    {
        if parts[i].0.same(&v) {
            let c0 = parts[i].1;
            assert(cnf.valid(ps[i as int].1));
            let n = cnf.or(c0, c);
            let old_value = parts[i].0.clone();
            parts.set(i, (old_value, n));
            proof {
                let qs = parts@;
                assert forall|k: int| 0 <= k < qs.len() implies cnf.valid((#[trigger] qs[k]).1) by {
                    if k != i {
                        assert(old(cnf).valid(ps[k].1));
                    }
                }
                assert forall|a: Bits, w: Val| #[trigger] hit(cnf, qs, a, w) == (hit(
                    old(cnf),
                    ps,
                    a,
                    w,
                ) || (v.model() == w && old(cnf).eval(c, a))) by {
                    if hit(cnf, qs, a, w) {
                        let k = choose|k: int|
                            0 <= k < qs.len() && (#[trigger] qs[k]).0.model() == w && cnf.eval(
                                qs[k].1,
                                a,
                            );
                        if k != i {
                            assert(old(cnf).valid(ps[k].1));
                            assert(ps[k] == qs[k]);
                        } else {
                            assert(cnf.eval(n, a));
                            if old(cnf).eval(c0, a) {
                                assert(ps[i as int].1 == c0);
                            }
                        }
                    }
                    if hit(old(cnf), ps, a, w) {
                        let k = choose|k: int|
                            0 <= k < ps.len() && (#[trigger] ps[k]).0.model() == w && old(cnf).eval(
                                ps[k].1,
                                a,
                            );
                        if k != i {
                            assert(old(cnf).valid(ps[k].1));
                            assert(qs[k] == ps[k]);
                        } else {
                            assert(cnf.eval(qs[i as int].1, a));
                        }
                    }
                    if v.model() == w && old(cnf).eval(c, a) {
                        assert(cnf.eval(qs[i as int].1, a));
                    }
                }
                assert forall|s: Sort| sorted(ps, s) && val_sort(v.model()) == s implies #[trigger] sorted(
                    qs,
                    s,
                ) by {
                    assert forall|k: int| 0 <= k < qs.len() implies val_sort(
                        (#[trigger] qs[k]).0.model(),
                    ) == s by {
                        assert(val_sort(ps[k].0.model()) == s);
                    }
                }
            }
            return ;
        }
        i += 1;
    }
    parts.push((v, c));
    proof {
        assert forall|a: Bits, w: Val| #[trigger] hit(cnf, parts@, a, w) == (hit(
            old(cnf),
            ps,
            a,
            w,
        ) || (v.model() == w && old(cnf).eval(c, a))) by {
            hit_push(cnf, ps, (v, c), a, w);
        }
        assert forall|k: int| 0 <= k < parts@.len() implies cnf.valid((#[trigger] parts@[k]).1) by {
            if k < ps.len() {
                assert(cnf.valid(ps[k].1));
            }
        }
    }
}

/// The cases of a condition or value.
fn as_partition(cnf: &mut Cnf, e: Enc, Ghost(o): Ghost<Out>) -> (r: Vec<(Value, Lit)>)
    requires
        old(cnf).wf(),
        enc_ok(old(cnf), e, o),
    ensures
        final(cnf).wf(),
        final(cnf).keeps(old(cnf)),
        cases_ok(final(cnf), r@, o),
        forall|s: Sort| enc_sorted(e, s) ==> #[trigger] sorted(r@, s),
{
    match e {
        Enc::P(p) => p,
        Enc::B(b) => {
            let nb = cnf.not(b);
            let mut r: Vec<(Value, Lit)> = Vec::new();
            r.push((Value::Bool(true), b));
            r.push((Value::Bool(false), nb));
            proof {
                let ghost p0 = Seq::<(Value, Lit)>::empty();
                assert forall|a: Bits, v: Val| #[trigger] hit(cnf, r@, a, v) == (o(a) == Some(v)) by {
                    assert(cnf.eval(b, a) == old(cnf).eval(b, a));
                    assert(cnf.eval(nb, a) == !old(cnf).eval(b, a));
                    assert(o(a) == truth(old(cnf).eval(b, a)));
                    assert(r@[0].0.model() == Val::Bool(true));
                    assert(r@[1].0.model() == Val::Bool(false));
                    if v == Val::Bool(true) && cnf.eval(b, a) {
                        assert(cnf.eval(r@[0].1, a));
                    }
                    if v == Val::Bool(false) && cnf.eval(nb, a) {
                        assert(cnf.eval(r@[1].1, a));
                    }
                }
            }
            r
        },
    }
}

/// A pair of cases that apply together.
struct Both {
    x: Value,
    y: Value,
    c: Lit,
}

spec fn both_hit(m: &Cnf, ts: Seq<Both>, a: Bits, v: Val, w: Val) -> bool {
    exists|i: int|
        0 <= i < ts.len() && (#[trigger] ts[i]).x.model() == v && ts[i].y.model() == w && m.eval(
            ts[i].c,
            a,
        )
}

spec fn both_valid(m: &Cnf, ts: Seq<Both>) -> bool {
    forall|i: int| 0 <= i < ts.len() ==> m.valid((#[trigger] ts[i]).c)
}

spec fn both_sorted(ts: Seq<Both>, s: Sort, t: Sort) -> bool {
    forall|i: int|
        0 <= i < ts.len() ==> val_sort((#[trigger] ts[i]).x.model()) == s && val_sort(
            ts[i].y.model(),
        ) == t
}

proof fn both_push(m: &Cnf, ts: Seq<Both>, x: Both, a: Bits, v: Val, w: Val)
    ensures
        both_hit(m, ts.push(x), a, v, w) == (both_hit(m, ts, a, v, w) || (x.x.model() == v
            && x.y.model() == w && m.eval(x.c, a))),
{
    let qs = ts.push(x);
    if both_hit(m, ts, a, v, w) {
        let i = choose|i: int|
            0 <= i < ts.len() && (#[trigger] ts[i]).x.model() == v && ts[i].y.model() == w && m.eval(
                ts[i].c,
                a,
            );
        assert(qs[i] == ts[i]);
    }
    if x.x.model() == v && x.y.model() == w && m.eval(x.c, a) {
        assert(qs[ts.len() as int] == x);
    }
    if both_hit(m, qs, a, v, w) {
        let i = choose|i: int|
            0 <= i < qs.len() && (#[trigger] qs[i]).x.model() == v && qs[i].y.model() == w && m.eval(
                qs[i].c,
                a,
            );
        if i < ts.len() {
            assert(ts[i] == qs[i]);
        }
    }
}

proof fn both_keeps(m: &Cnf, old: &Cnf, ts: Seq<Both>)
    requires
        m.keeps(old),
        both_valid(old, ts),
    ensures
        both_valid(m, ts),
        forall|a: Bits, v: Val, w: Val| #[trigger]
            both_hit(m, ts, a, v, w) == both_hit(old, ts, a, v, w),
{
    assert forall|a: Bits, v: Val, w: Val| #[trigger] both_hit(m, ts, a, v, w) == both_hit(
        old,
        ts,
        a,
        v,
        w,
    ) by {
        if both_hit(m, ts, a, v, w) {
            let i = choose|i: int|
                0 <= i < ts.len() && (#[trigger] ts[i]).x.model() == v && ts[i].y.model() == w
                    && m.eval(ts[i].c, a);
            assert(old.eval(ts[i].c, a));
        }
        if both_hit(old, ts, a, v, w) {
            let i = choose|i: int|
                0 <= i < ts.len() && (#[trigger] ts[i]).x.model() == v && ts[i].y.model() == w
                    && old.eval(ts[i].c, a);
            assert(m.eval(ts[i].c, a));
        }
    }
}

/// All pairs of cases.
fn pairs_of(
    cnf: &mut Cnf,
    px: &Vec<(Value, Lit)>,
    py: &Vec<(Value, Lit)>,
    Ghost(ox): Ghost<Out>,
    Ghost(oy): Ghost<Out>,
) -> (r: Vec<Both>)
    requires
        old(cnf).wf(),
        cases_ok(old(cnf), px@, ox),
        cases_ok(old(cnf), py@, oy),
    ensures
        final(cnf).wf(),
        final(cnf).keeps(old(cnf)),
        both_valid(final(cnf), r@),
        forall|a: Bits, v: Val, w: Val| #[trigger]
            both_hit(final(cnf), r@, a, v, w) == (ox(a) == Some(v) && oy(a) == Some(w)),
        forall|s: Sort, t: Sort|
            sorted(px@, s) && sorted(py@, t) ==> #[trigger] both_sorted(r@, s, t),
{
    let mut r: Vec<Both> = Vec::new();
    let mut i: usize = 0;
    assert(px@.take(0) =~= Seq::empty());
    while i < px.len()
        invariant
            i <= px@.len(),
            cnf.wf(),
            cnf.keeps(old(cnf)),
            all_valid(old(cnf), px@),
            all_valid(old(cnf), py@),
            both_valid(cnf, r@),
            forall|a: Bits, v: Val, w: Val| #[trigger]
                both_hit(cnf, r@, a, v, w) == (hit(old(cnf), px@.take(i as int), a, v) && hit(
                    old(cnf),
                    py@,
                    a,
                    w,
                )),
            forall|s: Sort, t: Sort|
                sorted(px@, s) && sorted(py@, t) ==> #[trigger] both_sorted(r@, s, t),
        decreases px.len() - i,
    {
        let ghost r0 = r@;
        let ghost m0 = *cnf;
        let c1 = px[i].1;
        let mut j: usize = 0;
        proof {
            assert(py@.take(0) =~= Seq::empty());
            assert(forall|a: Bits, w: Val| !hit(old(cnf), py@.take(0), a, w));
        }
        while j < py.len()
            invariant
                i < px@.len(),
                j <= py@.len(),
                c1 == px@[i as int].1,
                cnf.wf(),
                cnf.keeps(old(cnf)),
                all_valid(old(cnf), px@),
                all_valid(old(cnf), py@),
                both_valid(cnf, r@),
                forall|a: Bits, v: Val, w: Val| #[trigger]
                    both_hit(cnf, r@, a, v, w) == ((hit(old(cnf), px@.take(i as int), a, v) && hit(
                        old(cnf),
                        py@,
                        a,
                        w,
                    )) || (px@[i as int].0.model() == v && old(cnf).eval(c1, a) && hit(
                        old(cnf),
                        py@.take(j as int),
                        a,
                        w,
                    ))),
                forall|s: Sort, t: Sort|
                    sorted(px@, s) && sorted(py@, t) ==> #[trigger] both_sorted(r@, s, t),
            decreases py.len() - j,
        {
            let ghost m1 = *cnf;
            let ghost r1 = r@;
            let c2 = py[j].1;
            assert(old(cnf).valid(px@[i as int].1));
            assert(old(cnf).valid(py@[j as int].1));
            let c = cnf.and(c1, c2);
            proof {
                both_keeps(cnf, &m1, r1);
            }
            let b = Both { x: px[i].0.clone(), y: py[j].0.clone(), c };
            r.push(b);
            proof {
                assert forall|a: Bits, v: Val, w: Val| #[trigger] both_hit(cnf, r@, a, v, w) == ((hit(
                    old(cnf),
                    px@.take(i as int),
                    a,
                    v,
                ) && hit(old(cnf), py@, a, w)) || (px@[i as int].0.model() == v && old(cnf).eval(c1, a)
                    && hit(old(cnf), py@.take(j + 1), a, w))) by {
                    both_push(cnf, r1, b, a, v, w);
                    assert(py@.take(j + 1) =~= py@.take(j as int).push(py@[j as int]));
                    hit_push(old(cnf), py@.take(j as int), py@[j as int], a, w);
                    assert(cnf.eval(c, a) == (m1.eval(c1, a) && m1.eval(c2, a)));
                    assert(m1.eval(c1, a) == old(cnf).eval(c1, a));
                    assert(m1.eval(c2, a) == old(cnf).eval(c2, a));
                }
                assert forall|s: Sort, t: Sort| sorted(px@, s) && sorted(py@, t) implies #[trigger] both_sorted(
                    r@,
                    s,
                    t,
                ) by {
                    assert(both_sorted(r1, s, t));
                    assert forall|k: int| 0 <= k < r@.len() implies val_sort(
                        (#[trigger] r@[k]).x.model(),
                    ) == s && val_sort(r@[k].y.model()) == t by {
                        if k < r1.len() {
                            assert(val_sort(r1[k].x.model()) == s);
                        } else {
                            assert(val_sort(px@[i as int].0.model()) == s);
                            assert(val_sort(py@[j as int].0.model()) == t);
                        }
                    }
                }
                assert forall|k: int| 0 <= k < r@.len() implies cnf.valid((#[trigger] r@[k]).c) by {
                    if k < r1.len() {
                        assert(cnf.valid(r1[k].c));
                    }
                }
            }
            j += 1;
        }
        proof {
            assert(py@.take(j as int) =~= py@);
            assert forall|a: Bits, v: Val, w: Val| #[trigger] both_hit(cnf, r@, a, v, w) == (hit(
                old(cnf),
                px@.take(i + 1),
                a,
                v,
            ) && hit(old(cnf), py@, a, w)) by {
                assert(px@.take(i + 1) =~= px@.take(i as int).push(px@[i as int]));
                hit_push(old(cnf), px@.take(i as int), px@[i as int], a, v);
            }
        }
        i += 1;
    }
    proof {
        assert(px@.take(i as int) =~= px@);
        assert forall|a: Bits, v: Val, w: Val| #[trigger] both_hit(cnf, r@, a, v, w) == (ox(a) == Some(v)
            && oy(a) == Some(w)) by {
            assert(hit(old(cnf), px@, a, v) == (ox(a) == Some(v)));
            assert(hit(old(cnf), py@, a, w) == (oy(a) == Some(w)));
        }
    }
    r
}


spec fn related(m: &Cnf, ts: Seq<Both>, how: Rel, n: int, a: Bits) -> bool {
    exists|k: int|
        0 <= k < n && rel_holds(how, (#[trigger] ts[k]).x.model(), ts[k].y.model()) && m.eval(
            ts[k].c,
            a,
        )
}

/// Where the relation holds.
fn relate(
    cnf: &mut Cnf,
    ts: &Vec<Both>,
    how: Rel,
    Ghost(ox): Ghost<Out>,
    Ghost(oy): Ghost<Out>,
) -> (r: Option<Lit>)
    requires
        old(cnf).wf(),
        both_valid(old(cnf), ts@),
        forall|a: Bits, v: Val, w: Val| #[trigger]
            both_hit(old(cnf), ts@, a, v, w) == (ox(a) == Some(v) && oy(a) == Some(w)),
    ensures
        final(cnf).wf(),
        final(cnf).keeps(old(cnf)),
        match r {
            Some(n) => final(cnf).valid(n) && forall|a: Bits| #[trigger]
                final(cnf).eval(n, a) == rel_out(how, ox(a), oy(a)),
            None => exists|k: int|
                0 <= k < ts@.len() && !rel_takes(
                    how,
                    (#[trigger] ts@[k]).x.model(),
                    ts@[k].y.model(),
                ),
        },
{
    proof {
        cnf.constants_meaning();
    }
    let mut n = ff();
    let mut i: usize = 0;
    while i < ts.len()
        invariant
            i <= ts@.len(),
            cnf.wf(),
            cnf.keeps(old(cnf)),
            cnf.valid(n),
            both_valid(old(cnf), ts@),
            forall|a: Bits| #[trigger] cnf.eval(n, a) == related(old(cnf), ts@, how, i as int, a),
        decreases ts.len() - i,
    {
        assert(old(cnf).valid(ts@[i as int].c));
        let ghost m0 = *cnf;
        let ghost n0 = n;
        match test_rel(how, &ts[i].x, &ts[i].y) {
            None => {
                return None;
            },
            Some(b) => {
                if b {
                    n = cnf.or(n, ts[i].c);
                }
                proof {
                    assert forall|a: Bits| #[trigger] cnf.eval(n, a) == related(
                        old(cnf),
                        ts@,
                        how,
                        i + 1,
                        a,
                    ) by {
                        assert(m0.eval(n0, a) == related(old(cnf), ts@, how, i as int, a));
                        assert(m0.eval(ts@[i as int].c, a) == old(cnf).eval(ts@[i as int].c, a));
                        if related(old(cnf), ts@, how, i as int, a) {
                            let k = choose|k: int|
                                0 <= k < i && rel_holds(
                                    how,
                                    (#[trigger] ts@[k]).x.model(),
                                    ts@[k].y.model(),
                                ) && old(cnf).eval(ts@[k].c, a);
                            assert(0 <= k < i + 1);
                        }
                    }
                }
            },
        }
        i += 1;
    }
    proof {
        assert forall|a: Bits| #[trigger] cnf.eval(n, a) == rel_out(how, ox(a), oy(a)) by {
            if related(old(cnf), ts@, how, i as int, a) {
                let k = choose|k: int|
                    0 <= k < i && rel_holds(how, (#[trigger] ts@[k]).x.model(), ts@[k].y.model())
                        && old(cnf).eval(ts@[k].c, a);
                assert(both_hit(old(cnf), ts@, a, ts@[k].x.model(), ts@[k].y.model()));
            }
            if rel_out(how, ox(a), oy(a)) {
                assert(both_hit(old(cnf), ts@, a, ox(a)->0, oy(a)->0));
                let k = choose|k: int|
                    0 <= k < ts@.len() && (#[trigger] ts@[k]).x.model() == ox(a)->0
                        && ts@[k].y.model() == oy(a)->0 && old(cnf).eval(ts@[k].c, a);
                assert(related(old(cnf), ts@, how, i as int, a));
            }
        }
    }
    Some(n)
}

spec fn combined(m: &Cnf, ts: Seq<Both>, how: Arith, n: int, a: Bits, v: Val) -> bool {
    exists|k: int|
        0 <= k < n && arith_out(
            how,
            Some((#[trigger] ts[k]).x.model()),
            Some(ts[k].y.model()),
        ) == Some(v) && m.eval(ts[k].c, a)
}

/// The cases of the operation's result.
fn combine(
    cnf: &mut Cnf,
    ts: &Vec<Both>,
    how: Arith,
    Ghost(ox): Ghost<Out>,
    Ghost(oy): Ghost<Out>,
) -> (r: Option<Vec<(Value, Lit)>>)
    requires
        old(cnf).wf(),
        both_valid(old(cnf), ts@),
        forall|a: Bits, v: Val, w: Val| #[trigger]
            both_hit(old(cnf), ts@, a, v, w) == (ox(a) == Some(v) && oy(a) == Some(w)),
    ensures
        final(cnf).wf(),
        final(cnf).keeps(old(cnf)),
        match r {
            Some(ps) => cases_ok(final(cnf), ps@, |a: Bits| arith_out(how, ox(a), oy(a))) && sorted(
                ps@,
                Sort::N,
            ),
            None => exists|k: int|
                0 <= k < ts@.len() && !((#[trigger] ts@[k]).x.model() is Num
                    && ts@[k].y.model() is Num),
        },
{
    let mut out: Vec<(Value, Lit)> = Vec::new();
    let mut i: usize = 0;
    while i < ts.len()
        invariant
            i <= ts@.len(),
            cnf.wf(),
            cnf.keeps(old(cnf)),
            all_valid(cnf, out@),
            both_valid(old(cnf), ts@),
            sorted(out@, Sort::N),
            forall|a: Bits, v: Val| #[trigger]
                hit(cnf, out@, a, v) == combined(old(cnf), ts@, how, i as int, a, v),
        decreases ts.len() - i,
    {
        assert(old(cnf).valid(ts@[i as int].c));
        let ghost m0 = *cnf;
        let ghost out0 = out@;
        match (&ts[i].x, &ts[i].y) {
            (Value::Num(x), Value::Num(y)) => {
                match compute(how, x, y) {
                    Some(z) => {
                        push_part(cnf, &mut out, Value::Num(z), ts[i].c);
                        assert(sorted(out@, Sort::N));
                    },
                    None => {},
                }
            },
            _ => {
                return None;
            },
        }
        proof {
            assert forall|a: Bits, v: Val| #[trigger] hit(cnf, out@, a, v) == combined(
                old(cnf),
                ts@,
                how,
                i + 1,
                a,
                v,
            ) by {
                assert(hit(&m0, out0, a, v) == combined(old(cnf), ts@, how, i as int, a, v));
                assert(m0.eval(ts@[i as int].c, a) == old(cnf).eval(ts@[i as int].c, a));
                if combined(old(cnf), ts@, how, i as int, a, v) {
                    let k = choose|k: int|
                        0 <= k < i && arith_out(
                            how,
                            Some((#[trigger] ts@[k]).x.model()),
                            Some(ts@[k].y.model()),
                        ) == Some(v) && old(cnf).eval(ts@[k].c, a);
                    assert(0 <= k < i + 1);
                }
            }
        }
        i += 1;
    }
    proof {
        let o = |a: Bits| arith_out(how, ox(a), oy(a));
        assert forall|a: Bits, v: Val| #[trigger] hit(cnf, out@, a, v) == (o(a) == Some(v)) by {
            if combined(old(cnf), ts@, how, i as int, a, v) {
                let k = choose|k: int|
                    0 <= k < i && arith_out(
                        how,
                        Some((#[trigger] ts@[k]).x.model()),
                        Some(ts@[k].y.model()),
                    ) == Some(v) && old(cnf).eval(ts@[k].c, a);
                assert(both_hit(old(cnf), ts@, a, ts@[k].x.model(), ts@[k].y.model()));
            }
            if o(a) == Some(v) {
                assert(both_hit(old(cnf), ts@, a, ox(a)->0, oy(a)->0));
                let k = choose|k: int|
                    0 <= k < ts@.len() && (#[trigger] ts@[k]).x.model() == ox(a)->0
                        && ts@[k].y.model() == oy(a)->0 && old(cnf).eval(ts@[k].c, a);
                assert(combined(old(cnf), ts@, how, i as int, a, v));
            }
        }
    }
    Some(out)
}

/// Where the bits of a leaf from `k` on hold the number `i`.
fn eq_code(cnf: &mut Cnf, l: u32, k: u32, step: usize, bits: u32, i: usize) -> (r: Lit)
    requires
        old(cnf).wf(),
        k + bits <= 64,
    ensures
        final(cnf).wf(),
        final(cnf).keeps(old(cnf)),
        final(cnf).valid(r),
        forall|a: Bits| #[trigger] final(cnf).eval(r, a) == (code(a, l, k, step, bits as nat) == i),
    decreases bits,
{
    proof {
        cnf.constants_meaning();
    }
    if bits == 0 {
        if i == 0 {
            return tt();
        } else {
            return ff();
        }
    }
    let rest = eq_code(cnf, l, k + 1, step, bits - 1, i / 2);
    let ghost m1 = *cnf;
    let var = cnf.bitvar(l, k, step);
    let ghost m2 = *cnf;
    let lit = if i % 2 == 1 {
        var
    } else {
        flip(var)
    };
    let r = cnf.and(lit, rest);
    proof {
        assert forall|a: Bits| #[trigger] cnf.eval(r, a) == (code(a, l, k, step, bits as nat) == i) by {
            assert(m2.eval(var, a) == a(Input::Bit(l, k, step)));
            assert(m2.eval(rest, a) == m1.eval(rest, a));
            assert(m1.eval(rest, a) == (code(a, l, (k + 1) as u32, step, (bits - 1) as nat) == i / 2));
        }
    }
    r
}

/// Where the leaf has its value number `i`.
pub fn leaf_eq_index(cnf: &mut Cnf, e: &LeafBits, l: u32, step: usize, i: usize) -> (r: Lit)
    requires
        old(cnf).wf(),
        leaf_ok(*e),
    ensures
        final(cnf).wf(),
        final(cnf).keeps(old(cnf)),
        final(cnf).valid(r),
        forall|a: Bits| #[trigger]
            final(cnf).eval(r, a) == (code(a, l, 0, step, e.bits as nat) == i),
{
    eq_code(cnf, l, 0, step, e.bits, i)
}

spec fn leaf_hit(m: &Cnf, ps: Seq<(Value, Lit)>, n: int, e: LeafBits, l: u32, step: usize) -> bool {
    forall|a: Bits, v: Val| #[trigger]
        hit(m, ps, a, v) == {
            let c = code(a, l, 0, step, e.bits as nat) as int;
            c < n && e.values@[c].model() == v
        }
}

/// A leaf as a condition or cases.
fn enc_leaf(
    cnf: &mut Cnf,
    e: &LeafBits,
    l: u32,
    step: usize,
    Ghost(t): Ghost<LT>,
) -> (r: Enc)
    requires
        old(cnf).wf(),
        leaf_ok(*e),
        leaf_values(t) == Some(models(e.values@)),
        e.is_bool == (t is Bool),
    ensures
        final(cnf).wf(),
        final(cnf).keeps(old(cnf)),
        enc_ok(final(cnf), r, |a: Bits| leaf_out(*e, l, step, a)),
        enc_sorted(r, leaf_sort(t)),
{
    let ghost o = |a: Bits| leaf_out(*e, l, step, a);
    if e.is_bool {
        let n = cnf.bitvar(l, 0, step);
        proof {
            assert forall|a: Bits| #[trigger] cnf.eval(n, a) == holds(o(a)) && o(a) == truth(
                cnf.eval(n, a),
            ) by {
                reveal_with_fuel(code, 2);
                assert(code(a, l, 0, step, 1) == if a(Input::Bit(l, 0, step)) {
                    1nat
                } else {
                    0nat
                });
                assert(models(e.values@).len() == e.values@.len());
                assert(models(e.values@)[0] == e.values@[0].model());
                assert(models(e.values@)[1] == e.values@[1].model());
            }
        }
        return Enc::B(n);
    }
    let mut ps: Vec<(Value, Lit)> = Vec::new();
    let mut i: usize = 0;
    while i < e.values.len()
        invariant
            i <= e.values@.len(),
            ps@.len() == i,
            cnf.wf(),
            cnf.keeps(old(cnf)),
            leaf_ok(*e),
            leaf_values(t) == Some(models(e.values@)),
            all_valid(cnf, ps@),
            sorted(ps@, leaf_sort(t)),
            leaf_hit(cnf, ps@, i as int, *e, l, step),
        decreases e.values.len() - i,
    {
        let ghost m0 = *cnf;
        let ghost ps0 = ps@;
        let c = leaf_eq_index(cnf, e, l, step, i);
        proof {
            hit_keeps(cnf, &m0, ps0);
            leaf_sorts(t, e.values@, i as int);
        }
        let val = e.values[i].clone();
        ps.push((val, c));
        proof {
            assert forall|a: Bits, v: Val| #[trigger] hit(cnf, ps@, a, v) == {
                let k = code(a, l, 0, step, e.bits as nat) as int;
                k < i + 1 && e.values@[k].model() == v
            } by {
                hit_push(cnf, ps0, (val, c), a, v);
                assert(hit(&m0, ps0, a, v) == hit(cnf, ps0, a, v));
            }
            assert forall|k: int| 0 <= k < ps@.len() implies cnf.valid((#[trigger] ps@[k]).1)
                && val_sort(ps@[k].0.model()) == leaf_sort(t) by {
                if k < ps0.len() {
                    assert(cnf.valid(ps0[k].1));
                    assert(val_sort(ps0[k].0.model()) == leaf_sort(t));
                }
            }
        }
        i += 1;
    }
    proof {
        assert forall|a: Bits, v: Val| #[trigger] hit(cnf, ps@, a, v) == (o(a) == Some(v)) by {}
    }
    Enc::P(ps)
}


proof fn cases_ext(m: &Cnf, ps: Seq<(Value, Lit)>, o: Out, p: Out)
    requires
        cases_ok(m, ps, o),
        forall|a: Bits| #[trigger] o(a) == p(a),
    ensures
        cases_ok(m, ps, p),
{
    assert forall|a: Bits, v: Val| #[trigger] hit(m, ps, a, v) == (p(a) == Some(v)) by {
        assert(o(a) == p(a));
    }
}

proof fn cases_keeps(m: &Cnf, old: &Cnf, ps: Seq<(Value, Lit)>, o: Out)
    requires
        m.keeps(old),
        cases_ok(old, ps, o),
    ensures
        cases_ok(m, ps, o),
{
    hit_keeps(m, old, ps);
}

proof fn enc_keeps(m: &Cnf, old: &Cnf, x: Enc, o: Out)
    requires
        m.keeps(old),
        enc_ok(old, x, o),
    ensures
        enc_ok(m, x, o),
{
    match x {
        Enc::B(n) => {
            assert forall|a: Bits| #[trigger] m.eval(n, a) == holds(o(a)) && o(a) == truth(
                m.eval(n, a),
            ) by {
                assert(m.eval(n, a) == old.eval(n, a));
            }
        },
        Enc::P(ps) => {
            cases_keeps(m, old, ps@, o);
        },
    }
}

/// The cases of the sum or product of expressions.
fn enc_fold(
    cnf: &mut Cnf,
    les: &Steps,
    es: &Vec<FExpr>,
    mul: bool,
    Ghost(ts): Ghost<Seq<LT>>,
) -> (r: Result<Vec<(Value, Lit)>, EngineError>)
    requires
        old(cnf).wf(),
        leaves_ok(les@),
        encodes(les@, ts),
    ensures
        final(cnf).wf(),
        final(cnf).keeps(old(cnf)),
        match r {
            Ok(ps) => cases_ok(final(cnf), ps@, fold_out(fe_models(es@), les@, mul)) && sorted(
                ps@,
                Sort::N,
            ),
            Err(x) => x is Eval && !all_sort(typeds(fe_models(es@), ts), Sort::N),
        },
    decreases es, 0nat,
{
    let ghost ms = fe_models(es@);
    let mut acc: Vec<(Value, Lit)> = Vec::new();
    let unit = if mul {
        Value::integer(1)
    } else {
        Value::integer(0)
    };
    acc.push((unit, tt()));
    proof {
        cnf.constants_meaning();
        let o = fold_out(ms.take(0), les@, mul);
        assert forall|a: Bits, v: Val| #[trigger] hit(cnf, acc@, a, v) == (o(a) == Some(v)) by {
            assert(sems(ms.take(0), leaves_at(les@, a)) =~= Seq::empty());
            assert(acc@[0].0.model() == unit.model());
            assert(cnf.eval(acc@[0].1, a));
        }
    }
    let mut i: usize = 0;
    while i < es.len()
        invariant
            i <= es@.len(),
            ms == fe_models(es@),
            cnf.wf(),
            cnf.keeps(old(cnf)),
            leaves_ok(les@),
            encodes(les@, ts),
            sorted(acc@, Sort::N),
            cases_ok(cnf, acc@, fold_out(ms.take(i as int), les@, mul)),
        decreases es.len() - i,
    {
        let ghost oa = fold_out(ms.take(i as int), les@, mul);
        let ghost ox = out_of(ms[i as int], les@);
        let ghost m0 = *cnf;
        match enc(cnf, les, &es[i], Ghost(ts)) {
            Err(x) => {
                proof {
                    assert(typeds(ms, ts)[i as int] is None);
                }
                return Err(x);
            },
            Ok(x) => {
                let ghost m1 = *cnf;
                let px = as_partition(cnf, x, Ghost(ox));
                proof {
                    cases_keeps(cnf, &m0, acc@, oa);
                }
                let pairs = pairs_of(cnf, &acc, &px, Ghost(oa), Ghost(ox));
                let how = if mul {
                    Arith::Mul
                } else {
                    Arith::Add
                };
                match combine(cnf, &pairs, how, Ghost(oa), Ghost(ox)) {
                    None => {
                        proof {
                            if typed(ms[i as int], ts) == Some(Sort::N) {
                                assert(enc_sorted(x, Sort::N));
                                assert(sorted(px@, Sort::N));
                                assert(both_sorted(pairs@, Sort::N, Sort::N));
                            }
                            assert(typeds(ms, ts)[i as int] == typed(ms[i as int], ts));
                        }
                        return Err(bad("number expected"));
                    },
                    Some(ps) => {
                        proof {
                            let o1 = |a: Bits| arith_out(how, oa(a), ox(a));
                            let o2 = fold_out(ms.take(i + 1), les@, mul);
                            assert forall|a: Bits| #[trigger] o1(a) == o2(a) by {
                                let env = leaves_at(les@, a);
                                let outs = sems(ms.take(i + 1), env);
                                assert(outs.drop_last() =~= sems(ms.take(i as int), env));
                                assert(outs.last() == sem(ms[i as int], env));
                            }
                            cases_ext(cnf, ps@, o1, o2);
                        }
                        acc = ps;
                    },
                }
            },
        }
        i += 1;
    }
    assert(ms.take(i as int) =~= ms);
    Ok(acc)
}

spec fn fold_out(ms: Seq<FE>, les: Frame, mul: bool) -> Out {
    |a: Bits|
        of_number(
            if mul {
                product(sems(ms, leaves_at(les, a)))
            } else {
                total(sems(ms, leaves_at(les, a)))
            },
        )
}

/// All pairs of cases of two expressions.
fn enc_pairs(
    cnf: &mut Cnf,
    les: &Steps,
    x: Enc,
    y: Enc,
    Ghost(ox): Ghost<Out>,
    Ghost(oy): Ghost<Out>,
) -> (r: Vec<Both>)
    requires
        old(cnf).wf(),
        enc_ok(old(cnf), x, ox),
        enc_ok(old(cnf), y, oy),
    ensures
        final(cnf).wf(),
        final(cnf).keeps(old(cnf)),
        both_valid(final(cnf), r@),
        forall|a: Bits, v: Val, w: Val| #[trigger]
            both_hit(final(cnf), r@, a, v, w) == (ox(a) == Some(v) && oy(a) == Some(w)),
        forall|s: Sort, t: Sort|
            enc_sorted(x, s) && enc_sorted(y, t) ==> #[trigger] both_sorted(r@, s, t),
{
    let ghost m0 = *cnf;
    let px = as_partition(cnf, x, Ghost(ox));
    proof {
        enc_keeps(cnf, &m0, y, oy);
    }
    let ghost m1 = *cnf;
    let py = as_partition(cnf, y, Ghost(oy));
    proof {
        cases_keeps(cnf, &m1, px@, ox);
    }
    let r = pairs_of(cnf, &px, &py, Ghost(ox), Ghost(oy));
    assert forall|s: Sort, t: Sort| enc_sorted(x, s) && enc_sorted(y, t) implies #[trigger] both_sorted(
        r@,
        s,
        t,
    ) by {
        assert(sorted(px@, s));
        assert(sorted(py@, t));
    }
    r
}

/// Two expressions, encoded.
fn enc_two(
    cnf: &mut Cnf,
    les: &Steps,
    a: &Box<FExpr>,
    b: &Box<FExpr>,
    Ghost(ts): Ghost<Seq<LT>>,
    Ghost(whole): Ghost<FExpr>,
) -> (r: Result<(Enc, Enc), EngineError>)
    requires
        decreases_to!(whole => *a),
        decreases_to!(whole => *b),
        old(cnf).wf(),
        leaves_ok(les@),
        encodes(les@, ts),
    ensures
        final(cnf).wf(),
        final(cnf).keeps(old(cnf)),
        match r {
            Ok((x, y)) => {
                &&& enc_ok(final(cnf), x, out_of(a.model(), les@))
                &&& enc_ok(final(cnf), y, out_of(b.model(), les@))
                &&& typed(a.model(), ts) matches Some(s) ==> enc_sorted(x, s)
                &&& typed(b.model(), ts) matches Some(s) ==> enc_sorted(y, s)
            },
            Err(x) => x is Eval && (typed(a.model(), ts) is None || typed(b.model(), ts) is None),
        },
    decreases whole, 1nat,
{
    let x = match enc(cnf, les, a, Ghost(ts)) {
        Ok(x) => x,
        Err(err) => {
            return Err(err);
        },
    };
    let ghost m1 = *cnf;
    let y = match enc(cnf, les, b, Ghost(ts)) {
        Ok(y) => y,
        Err(err) => {
            return Err(err);
        },
    };
    proof {
        enc_keeps(cnf, &m1, x, out_of(a.model(), les@));
    }
    Ok((x, y))
}

/// A comparison of two expressions.
fn enc_rel(
    cnf: &mut Cnf,
    les: &Steps,
    a: &Box<FExpr>,
    b: &Box<FExpr>,
    how: Rel,
    Ghost(ts): Ghost<Seq<LT>>,
    Ghost(whole): Ghost<FExpr>,
) -> (r: Result<Lit, EngineError>)
    requires
        decreases_to!(whole => *a),
        decreases_to!(whole => *b),
        old(cnf).wf(),
        leaves_ok(les@),
        encodes(les@, ts),
    ensures
        final(cnf).wf(),
        final(cnf).keeps(old(cnf)),
        match r {
            Ok(n) => final(cnf).valid(n) && forall|z: Bits| #[trigger]
                final(cnf).eval(n, z) == rel_out(
                    how,
                    sem(a.model(), leaves_at(les@, z)),
                    sem(b.model(), leaves_at(les@, z)),
                ),
            Err(x) => x is Eval && (typed(a.model(), ts) is None || typed(b.model(), ts) is None || (
            !(how is Eq) && !(typed(a.model(), ts) == Some(Sort::N) && typed(b.model(), ts) == Some(
                Sort::N,
            )))),
        },
    decreases whole, 2nat,
{
    let ghost ox = out_of(a.model(), les@);
    let ghost oy = out_of(b.model(), les@);
    let (x, y) = match enc_two(cnf, les, a, b, Ghost(ts), Ghost(whole)) {
        Ok(p) => p,
        Err(err) => {
            return Err(err);
        },
    };
    match (&x, &y, how) {
        (Enc::B(m), Enc::B(n), Rel::Eq) => {
            let ghost m0 = *cnf;
            let r = cnf.iff_lit(*m, *n);
            assert forall|z: Bits| #[trigger] cnf.eval(r, z) == rel_out(
                how,
                sem(a.model(), leaves_at(les@, z)),
                sem(b.model(), leaves_at(les@, z)),
            ) by {
                assert(m0.eval(*m, z) == holds(ox(z)) && ox(z) == truth(m0.eval(*m, z)));
                assert(m0.eval(*n, z) == holds(oy(z)) && oy(z) == truth(m0.eval(*n, z)));
            }
            return Ok(r);
        },
        _ => {},
    }
    let pairs = enc_pairs(cnf, les, x, y, Ghost(ox), Ghost(oy));
    match relate(cnf, &pairs, how, Ghost(ox), Ghost(oy)) {
        Some(n) => {
            assert forall|z: Bits| #[trigger] cnf.eval(n, z) == rel_out(
                how,
                sem(a.model(), leaves_at(les@, z)),
                sem(b.model(), leaves_at(les@, z)),
            ) by {
                assert(cnf.eval(n, z) == rel_out(how, ox(z), oy(z)));
            }
            Ok(n)
        },
        None => {
            proof {
                if typed(a.model(), ts) == Some(Sort::N) && typed(b.model(), ts) == Some(Sort::N) {
                    assert(enc_sorted(x, Sort::N) && enc_sorted(y, Sort::N));
                    assert(both_sorted(pairs@, Sort::N, Sort::N));
                }
            }
            Err(bad("numeric comparison on non-numeric values"))
        },
    }
}

/// An operation on two expressions.
fn enc_arith(
    cnf: &mut Cnf,
    les: &Steps,
    a: &Box<FExpr>,
    b: &Box<FExpr>,
    how: Arith,
    Ghost(ts): Ghost<Seq<LT>>,
    Ghost(whole): Ghost<FExpr>,
) -> (r: Result<Vec<(Value, Lit)>, EngineError>)
    requires
        decreases_to!(whole => *a),
        decreases_to!(whole => *b),
        old(cnf).wf(),
        leaves_ok(les@),
        encodes(les@, ts),
    ensures
        final(cnf).wf(),
        final(cnf).keeps(old(cnf)),
        match r {
            Ok(ps) => sorted(ps@, Sort::N) && cases_ok(
                final(cnf),
                ps@,
                |z: Bits|
                    arith_out(
                        how,
                        sem(a.model(), leaves_at(les@, z)),
                        sem(b.model(), leaves_at(les@, z)),
                    ),
            ),
            Err(x) => x is Eval && !(typed(a.model(), ts) == Some(Sort::N) && typed(b.model(), ts)
                == Some(Sort::N)),
        },
    decreases whole, 2nat,
{
    let ghost ox = out_of(a.model(), les@);
    let ghost oy = out_of(b.model(), les@);
    let (x, y) = match enc_two(cnf, les, a, b, Ghost(ts), Ghost(whole)) {
        Ok(p) => p,
        Err(err) => {
            return Err(err);
        },
    };
    let pairs = enc_pairs(cnf, les, x, y, Ghost(ox), Ghost(oy));
    match combine(cnf, &pairs, how, Ghost(ox), Ghost(oy)) {
        Some(ps) => {
            proof {
                cases_ext(
                    cnf,
                    ps@,
                    |z: Bits| arith_out(how, ox(z), oy(z)),
                    |z: Bits|
                        arith_out(
                            how,
                            sem(a.model(), leaves_at(les@, z)),
                            sem(b.model(), leaves_at(les@, z)),
                        ),
                );
            }
            Ok(ps)
        },
        None => {
            proof {
                if typed(a.model(), ts) == Some(Sort::N) && typed(b.model(), ts) == Some(Sort::N) {
                    assert(enc_sorted(x, Sort::N) && enc_sorted(y, Sort::N));
                    assert(both_sorted(pairs@, Sort::N, Sort::N));
                }
            }
            Err(bad("number expected"))
        },
    }
}

/// A conjunction or disjunction.
pub fn enc_junction(
    cnf: &mut Cnf,
    les: &Steps,
    es: &Vec<FExpr>,
    conj: bool,
    Ghost(ts): Ghost<Seq<LT>>,
) -> (r: Result<Lit, EngineError>)
    requires
        old(cnf).wf(),
        leaves_ok(les@),
        encodes(les@, ts),
    ensures
        final(cnf).wf(),
        final(cnf).keeps(old(cnf)),
        match r {
            Ok(n) => final(cnf).valid(n) && forall|a: Bits| #[trigger]
                final(cnf).eval(n, a) == if conj {
                    all_hold(sems(fe_models(es@), leaves_at(les@, a)))
                } else {
                    some_holds(sems(fe_models(es@), leaves_at(les@, a)))
                },
            Err(x) => x is Eval && !all_sort(typeds(fe_models(es@), ts), Sort::B),
        },
    decreases es, 0nat,
{
    let ghost ms = fe_models(es@);
    proof {
        cnf.constants_meaning();
    }
    let mut r = if conj {
        tt()
    } else {
        ff()
    };
    let stop = if conj {
        ff()
    } else {
        tt()
    };
    let mut i: usize = 0;
    while i < es.len()
        invariant
            i <= es@.len(),
            ms == fe_models(es@),
            cnf.wf(),
            cnf.keeps(old(cnf)),
            leaves_ok(les@),
            encodes(les@, ts),
            cnf.valid(r),
            stop == if conj {
                ff()
            } else {
                tt()
            },
            forall|a: Bits| #[trigger]
                cnf.eval(r, a) == if conj {
                    all_hold(sems(ms.take(i as int), leaves_at(les@, a)))
                } else {
                    some_holds(sems(ms.take(i as int), leaves_at(les@, a)))
                },
        decreases es.len() - i,
    {
        let ghost m0 = *cnf;
        let ghost r0 = r;
        match enc_bool(cnf, les, &es[i], Ghost(ts)) {
            Err(x) => {
                assert(typeds(ms, ts)[i as int] == typed(ms[i as int], ts));
                return Err(x);
            },
            Ok(n) => {
                let ghost m1 = *cnf;
                r = if conj {
                    cnf.and(r, n)
                } else {
                    cnf.or(r, n)
                };
                proof {
                    assert forall|a: Bits| #[trigger] cnf.eval(r, a) == if conj {
                        all_hold(sems(ms.take(i + 1), leaves_at(les@, a)))
                    } else {
                        some_holds(sems(ms.take(i + 1), leaves_at(les@, a)))
                    } by {
                        let env = leaves_at(les@, a);
                        assert(m1.eval(r0, a) == m0.eval(r0, a));
                        assert(m1.eval(n, a) == holds(sem(ms[i as int], env)));
                        let x = sems(ms.take(i as int), env);
                        let y = sems(ms.take(i + 1), env);
                        assert(y =~= x.push(sem(ms[i as int], env)));
                        if all_hold(y) {
                            assert(holds(y[i as int]));
                            assert forall|k: int| 0 <= k < x.len() implies holds(#[trigger] x[k]) by {
                                assert(y[k] == x[k]);
                            }
                        }
                        if some_holds(x) {
                            let k = choose|k: int| 0 <= k < x.len() && holds(#[trigger] x[k]);
                            assert(holds(y[k]));
                        }
                        if holds(sem(ms[i as int], env)) {
                            assert(holds(y[i as int]));
                        }
                    }
                }
            },
        }
        i += 1;
        if r == stop {
            proof {
                cnf.constants_meaning();
                assert forall|a: Bits| #[trigger] cnf.eval(r, a) == if conj {
                    all_hold(sems(ms, leaves_at(les@, a)))
                } else {
                    some_holds(sems(ms, leaves_at(les@, a)))
                } by {
                    let env = leaves_at(les@, a);
                    let x = sems(ms.take(i as int), env);
                    let y = sems(ms, env);
                    assert(forall|k: int| 0 <= k < x.len() ==> x[k] == y[k]);
                    assert(cnf.eval(r, a) == !conj);
                    if conj {
                        let k = choose|k: int| 0 <= k < x.len() && !holds(#[trigger] x[k]);
                        assert(!holds(y[k]));
                    } else {
                        let k = choose|k: int| 0 <= k < x.len() && holds(#[trigger] x[k]);
                        assert(holds(y[k]));
                    }
                }
            }
            return Ok(r);
        }
    }
    assert(ms.take(i as int) =~= ms);
    Ok(r)
}

/// An expression as a condition or cases.
fn enc(
    cnf: &mut Cnf,
    les: &Steps,
    e: &FExpr,
    Ghost(ts): Ghost<Seq<LT>>,
) -> (r: Result<Enc, EngineError>)
    requires
        old(cnf).wf(),
        leaves_ok(les@),
        encodes(les@, ts),
    ensures
        final(cnf).wf(),
        final(cnf).keeps(old(cnf)),
        match r {
            Ok(x) => enc_ok(final(cnf), x, out_of(e.model(), les@)) && (typed(
                e.model(),
                ts,
            ) matches Some(s) ==> enc_sorted(x, s)),
            Err(x) => x is Eval && typed(e.model(), ts) is None,
        },
    decreases e, 3nat,
{
    let ghost o = out_of(e.model(), les@);
    match e {
        FExpr::Const(Value::Bool(b)) => {
            proof {
                cnf.constants_meaning();
            }
            let n = if *b {
                tt()
            } else {
                ff()
            };
            Ok(Enc::B(n))
        },
        FExpr::Const(v) => {
            let mut ps: Vec<(Value, Lit)> = Vec::new();
            ps.push((v.clone(), tt()));
            proof {
                cnf.constants_meaning();
                assert forall|a: Bits, w: Val| #[trigger] hit(cnf, ps@, a, w) == (o(a) == Some(w)) by {
                    assert(ps@[0].0.model() == v.model());
                    assert(cnf.eval(ps@[0].1, a));
                }
            }
            Ok(Enc::P(ps))
        },
        FExpr::Var(l, primed) => {
            if *l as usize >= les.leaves.len() {
                return Err(bad("unknown state variable"));
            }
            let step: usize = if *primed {
                les.next
            } else {
                les.cur
            };
            let r = enc_leaf(cnf, &les.leaves[*l as usize], *l, step, Ghost(ts[*l as int]));
            proof {
                let o1 = |a: Bits| leaf_out(les@.es[*l as int], *l, step, a);
                assert forall|a: Bits| #[trigger] o1(a) == o(a) by {}
                match &r {
                    Enc::B(n) => {
                        assert forall|a: Bits| #[trigger] cnf.eval(*n, a) == holds(o(a)) && o(a)
                            == truth(cnf.eval(*n, a)) by {
                            assert(o1(a) == o(a));
                        }
                    },
                    Enc::P(ps) => {
                        cases_ext(cnf, ps@, o1, o);
                    },
                }
            }
            Ok(r)
        },
        FExpr::Not(a) => {
            match enc_bool(cnf, les, a, Ghost(ts)) {
                Err(x) => Err(x),
                Ok(n) => {
                    let ghost m0 = *cnf;
                    let r = cnf.not(n);
                    assert forall|z: Bits| #[trigger] cnf.eval(r, z) == holds(o(z)) && o(z) == truth(
                        cnf.eval(r, z),
                    ) by {
                        assert(m0.eval(n, z) == holds(sem(a.model(), leaves_at(les@, z))));
                    }
                    Ok(Enc::B(r))
                },
            }
        },
        FExpr::And(es) => {
            match enc_junction(cnf, les, es, true, Ghost(ts)) {
                Err(x) => Err(x),
                Ok(n) => {
                    assert forall|z: Bits| #[trigger] cnf.eval(n, z) == holds(o(z)) && o(z) == truth(
                        cnf.eval(n, z),
                    ) by {}
                    Ok(Enc::B(n))
                },
            }
        },
        FExpr::Or(es) => {
            match enc_junction(cnf, les, es, false, Ghost(ts)) {
                Err(x) => Err(x),
                Ok(n) => {
                    assert forall|z: Bits| #[trigger] cnf.eval(n, z) == holds(o(z)) && o(z) == truth(
                        cnf.eval(n, z),
                    ) by {}
                    Ok(Enc::B(n))
                },
            }
        },
        FExpr::Ite(c, t, f) => {
            let ghost oc = out_of(c.model(), les@);
            let ghost ot = out_of(t.model(), les@);
            let ghost of = out_of(f.model(), les@);
            let ec = match enc_bool(cnf, les, c, Ghost(ts)) {
                Err(x) => {
                    return Err(x);
                },
                Ok(n) => n,
            };
            let ghost m0 = *cnf;
            let (et, ef) = match enc_two(cnf, les, t, f, Ghost(ts), Ghost(*e)) {
                Err(x) => {
                    return Err(x);
                },
                Ok(p) => p,
            };
            let ghost m1 = *cnf;
            assert forall|z: Bits| #[trigger] m1.eval(ec, z) == holds(oc(z)) by {
                assert(m1.eval(ec, z) == m0.eval(ec, z));
            }
            match (&et, &ef) {
                (Enc::B(x), Enc::B(y)) => {
                    let r = cnf.ite_lit(ec, *x, *y);
                    assert forall|z: Bits| #[trigger] cnf.eval(r, z) == holds(o(z)) && o(z) == truth(
                        cnf.eval(r, z),
                    ) by {
                        assert(m1.eval(ec, z) == holds(oc(z)));
                        assert(m1.eval(*x, z) == holds(ot(z)) && ot(z) == truth(m1.eval(*x, z)));
                        assert(m1.eval(*y, z) == holds(of(z)) && of(z) == truth(m1.eval(*y, z)));
                    }
                    return Ok(Enc::B(r));
                },
                _ => {},
            }
            let pt = as_partition(cnf, et, Ghost(ot));
            let ghost m2 = *cnf;
            proof {
                enc_keeps(cnf, &m1, ef, of);
            }
            let pf = as_partition(cnf, ef, Ghost(of));
            let ghost m3 = *cnf;
            proof {
                cases_keeps(cnf, &m2, pt@, ot);
            }
            let nec = cnf.not(ec);
            let ghost m4 = *cnf;
            proof {
                hit_keeps(cnf, &m3, pt@);
                hit_keeps(cnf, &m3, pf@);
                assert forall|z: Bits| #[trigger] m4.eval(ec, z) == holds(oc(z)) by {
                    assert(m4.eval(ec, z) == m1.eval(ec, z));
                }
            }
            let mut merged: Vec<(Value, Lit)> = Vec::new();
            guard_cases(cnf, &mut merged, &pt, ec);
            let ghost m5 = *cnf;
            proof {
                hit_keeps(cnf, &m4, pf@);
            }
            guard_cases(cnf, &mut merged, &pf, nec);
            proof {
                assert forall|z: Bits, v: Val| #[trigger] hit(cnf, merged@, z, v) == (o(z) == Some(v)) by {
                    assert(m5.eval(nec, z) == m4.eval(nec, z));
                    assert(m4.eval(nec, z) == !m3.eval(ec, z));
                    assert(m4.eval(ec, z) == holds(oc(z)));
                    assert(m3.eval(ec, z) == m4.eval(ec, z));
                    assert(hit(&m3, pt@, z, v) == (ot(z) == Some(v)));
                    assert(hit(&m3, pf@, z, v) == (of(z) == Some(v)));
                    assert(hit(&m4, pt@, z, v) == hit(&m3, pt@, z, v));
                    assert(hit(&m5, pf@, z, v) == hit(&m4, pf@, z, v));
                    assert(hit(&m4, pf@, z, v) == hit(&m3, pf@, z, v));
                    assert(!hit(&m4, Seq::empty(), z, v));
                }
                if typed(e.model(), ts) is Some {
                    let s = typed(t.model(), ts)->0;
                    assert(enc_sorted(et, s) && enc_sorted(ef, s));
                    assert(sorted(pt@, s) && sorted(pf@, s));
                    assert(sorted(Seq::<(Value, Lit)>::empty(), s));
                }
            }
            Ok(Enc::P(merged))
        },
        FExpr::Eq(a, b) => {
            match enc_rel(cnf, les, a, b, Rel::Eq, Ghost(ts), Ghost(*e)) {
                Err(x) => Err(x),
                Ok(n) => {
                    assert forall|z: Bits| #[trigger] cnf.eval(n, z) == holds(o(z)) && o(z) == truth(
                        cnf.eval(n, z),
                    ) by {}
                    Ok(Enc::B(n))
                },
            }
        },
        FExpr::Lt(a, b) => {
            match enc_rel(cnf, les, a, b, Rel::Lt, Ghost(ts), Ghost(*e)) {
                Err(x) => Err(x),
                Ok(n) => {
                    assert forall|z: Bits| #[trigger] cnf.eval(n, z) == holds(o(z)) && o(z) == truth(
                        cnf.eval(n, z),
                    ) by {}
                    Ok(Enc::B(n))
                },
            }
        },
        FExpr::Le(a, b) => {
            match enc_rel(cnf, les, a, b, Rel::Le, Ghost(ts), Ghost(*e)) {
                Err(x) => Err(x),
                Ok(n) => {
                    assert forall|z: Bits| #[trigger] cnf.eval(n, z) == holds(o(z)) && o(z) == truth(
                        cnf.eval(n, z),
                    ) by {}
                    Ok(Enc::B(n))
                },
            }
        },
        FExpr::Add(es) => {
            match enc_fold(cnf, les, es, false, Ghost(ts)) {
                Err(x) => Err(x),
                Ok(ps) => {
                    proof {
                        cases_ext(cnf, ps@, fold_out(fe_models(es@), les@, false), o);
                    }
                    Ok(Enc::P(ps))
                },
            }
        },
        FExpr::Mul(es) => {
            match enc_fold(cnf, les, es, true, Ghost(ts)) {
                Err(x) => Err(x),
                Ok(ps) => {
                    proof {
                        cases_ext(cnf, ps@, fold_out(fe_models(es@), les@, true), o);
                    }
                    Ok(Enc::P(ps))
                },
            }
        },
        FExpr::Neg(a) => {
            let ghost oa = out_of(a.model(), les@);
            match enc(cnf, les, a, Ghost(ts)) {
                Err(x) => Err(x),
                Ok(x) => {
                    let pa = as_partition(cnf, x, Ghost(oa));
                    match negate_cases(cnf, &pa, Ghost(oa)) {
                        None => {
                            proof {
                                if typed(a.model(), ts) == Some(Sort::N) {
                                    assert(enc_sorted(x, Sort::N));
                                    assert(sorted(pa@, Sort::N));
                                }
                            }
                            Err(bad("number expected"))
                        },
                        Some(ps) => {
                            proof {
                                cases_ext(cnf, ps@, neg_out(oa), o);
                            }
                            Ok(Enc::P(ps))
                        },
                    }
                },
            }
        },
        FExpr::Div(a, b) => {
            match enc_arith(cnf, les, a, b, Arith::Div, Ghost(ts), Ghost(*e)) {
                Err(x) => Err(x),
                Ok(ps) => {
                    proof {
                        cases_ext(
                            cnf,
                            ps@,
                            |z: Bits|
                                arith_out(
                                    Arith::Div,
                                    sem(a.model(), leaves_at(les@, z)),
                                    sem(b.model(), leaves_at(les@, z)),
                                ),
                            o,
                        );
                    }
                    Ok(Enc::P(ps))
                },
            }
        },
        FExpr::IDiv(a, b) => {
            match enc_arith(cnf, les, a, b, Arith::IDiv, Ghost(ts), Ghost(*e)) {
                Err(x) => Err(x),
                Ok(ps) => {
                    proof {
                        cases_ext(
                            cnf,
                            ps@,
                            |z: Bits|
                                arith_out(
                                    Arith::IDiv,
                                    sem(a.model(), leaves_at(les@, z)),
                                    sem(b.model(), leaves_at(les@, z)),
                                ),
                            o,
                        );
                    }
                    Ok(Enc::P(ps))
                },
            }
        },
        FExpr::Mod(a, b) => {
            match enc_arith(cnf, les, a, b, Arith::Mod, Ghost(ts), Ghost(*e)) {
                Err(x) => Err(x),
                Ok(ps) => {
                    proof {
                        cases_ext(
                            cnf,
                            ps@,
                            |z: Bits|
                                arith_out(
                                    Arith::Mod,
                                    sem(a.model(), leaves_at(les@, z)),
                                    sem(b.model(), leaves_at(les@, z)),
                                ),
                            o,
                        );
                    }
                    Ok(Enc::P(ps))
                },
            }
        },
    }
}

spec fn neg_out(o: Out) -> Out {
    |a: Bits|
        match number(o(a)) {
            Some(x) => Some(Val::Num(x.neg())),
            None => None,
        }
}

/// The cases of a negated number.
fn negate_cases(
    cnf: &mut Cnf,
    ps: &Vec<(Value, Lit)>,
    Ghost(o): Ghost<Out>,
) -> (r: Option<Vec<(Value, Lit)>>)
    requires
        old(cnf).wf(),
        cases_ok(old(cnf), ps@, o),
    ensures
        final(cnf).wf(),
        final(cnf).keeps(old(cnf)),
        match r {
            Some(qs) => cases_ok(final(cnf), qs@, neg_out(o)) && sorted(qs@, Sort::N),
            None => !sorted(ps@, Sort::N),
        },
{
    let mut out: Vec<(Value, Lit)> = Vec::new();
    let mut i: usize = 0;
    while i < ps.len()
        invariant
            i <= ps@.len(),
            out@.len() == i,
            *cnf == *old(cnf),
            cnf.wf(),
            cases_ok(cnf, ps@, o),
            forall|k: int|
                0 <= k < i ==> (#[trigger] out@[k]).1 == ps@[k].1 && ps@[k].0.model() is Num
                    && out@[k].0.model() == Val::Num(ps@[k].0.model()->Num_0.neg()),
        decreases ps.len() - i,
    {
        match &ps[i].0 {
            Value::Num(x) => {
                let c = ps[i].1;
                out.push((Value::Num(x.negated()), c));
            },
            _ => {
                assert(val_sort(ps@[i as int].0.model()) != Sort::N);
                return None;
            },
        }
        i += 1;
    }
    proof {
        let p = neg_out(o);
        assert forall|k: int| 0 <= k < out@.len() implies cnf.valid((#[trigger] out@[k]).1) by {
            assert(cnf.valid(ps@[k].1));
        }
        assert forall|a: Bits, v: Val| #[trigger] hit(cnf, out@, a, v) == (p(a) == Some(v)) by {
            if hit(cnf, out@, a, v) {
                let k = choose|k: int|
                    0 <= k < out@.len() && (#[trigger] out@[k]).0.model() == v && cnf.eval(
                        out@[k].1,
                        a,
                    );
                assert(hit(cnf, ps@, a, ps@[k].0.model()));
            }
            if p(a) == Some(v) {
                assert(hit(cnf, ps@, a, o(a)->0));
                let k = choose|k: int|
                    0 <= k < ps@.len() && (#[trigger] ps@[k]).0.model() == o(a)->0 && cnf.eval(
                        ps@[k].1,
                        a,
                    );
                assert(out@[k].0.model() == v);
            }
        }
    }
    Some(out)
}

/// Adds cases under a condition.
fn guard_cases(
    cnf: &mut Cnf,
    out: &mut Vec<(Value, Lit)>,
    ps: &Vec<(Value, Lit)>,
    c: Lit,
)
    requires
        old(cnf).wf(),
        old(cnf).valid(c),
        all_valid(old(cnf), old(out)@),
        all_valid(old(cnf), ps@),
    ensures
        final(cnf).wf(),
        final(cnf).keeps(old(cnf)),
        all_valid(final(cnf), final(out)@),
        forall|a: Bits, v: Val| #[trigger]
            hit(final(cnf), final(out)@, a, v) == (hit(old(cnf), old(out)@, a, v) || (old(cnf).eval(
                c,
                a,
            ) && hit(old(cnf), ps@, a, v))),
        forall|s: Sort|
            sorted(old(out)@, s) && sorted(ps@, s) ==> #[trigger] sorted(final(out)@, s),
{
    let mut i: usize = 0;
    assert(ps@.take(0) =~= Seq::empty());
    while i < ps.len()
        invariant
            i <= ps@.len(),
            cnf.wf(),
            cnf.keeps(old(cnf)),
            old(cnf).valid(c),
            all_valid(cnf, out@),
            all_valid(old(cnf), ps@),
            forall|a: Bits, v: Val| #[trigger]
                hit(cnf, out@, a, v) == (hit(old(cnf), old(out)@, a, v) || (old(cnf).eval(c, a) && hit(
                    old(cnf),
                    ps@.take(i as int),
                    a,
                    v,
                ))),
            forall|s: Sort| sorted(old(out)@, s) && sorted(ps@, s) ==> #[trigger] sorted(out@, s),
        decreases ps.len() - i,
    {
        let ghost m0 = *cnf;
        let ghost out0 = out@;
        assert(old(cnf).valid(ps@[i as int].1));
        let ci = ps[i].1;
        let cc = cnf.and(c, ci);
        let ghost m1 = *cnf;
        proof {
            hit_keeps(cnf, &m0, out0);
        }
        let v = ps[i].0.clone();
        push_part(cnf, out, v, cc);
        proof {
            assert forall|a: Bits, w: Val| #[trigger] hit(cnf, out@, a, w) == (hit(
                old(cnf),
                old(out)@,
                a,
                w,
            ) || (old(cnf).eval(c, a) && hit(old(cnf), ps@.take(i + 1), a, w))) by {
                assert(ps@.take(i + 1) =~= ps@.take(i as int).push(ps@[i as int]));
                hit_push(old(cnf), ps@.take(i as int), ps@[i as int], a, w);
                assert(hit(&m1, out0, a, w) == hit(&m0, out0, a, w));
                assert(m1.eval(cc, a) == (m0.eval(c, a) && m0.eval(ci, a)));
                assert(m0.eval(c, a) == old(cnf).eval(c, a));
                assert(m0.eval(ci, a) == old(cnf).eval(ci, a));
            }
            assert forall|s: Sort| sorted(old(out)@, s) && sorted(ps@, s) implies #[trigger] sorted(
                out@,
                s,
            ) by {
                assert(sorted(out0, s));
                assert(val_sort(ps@[i as int].0.model()) == s);
            }
        }
        i += 1;
    }
    assert(ps@.take(i as int) =~= ps@);
}

/// An expression as a condition.
pub fn enc_bool(
    cnf: &mut Cnf,
    les: &Steps,
    e: &FExpr,
    Ghost(ts): Ghost<Seq<LT>>,
) -> (r: Result<Lit, EngineError>)
    requires
        old(cnf).wf(),
        leaves_ok(les@),
        encodes(les@, ts),
    ensures
        final(cnf).wf(),
        final(cnf).keeps(old(cnf)),
        match r {
            Ok(n) => final(cnf).valid(n) && forall|a: Bits| #[trigger]
                final(cnf).eval(n, a) == holds(sem(e.model(), leaves_at(les@, a))),
            Err(x) => x is Eval && !is_condition(e.model(), ts),
        },
    decreases e, 4nat,
{
    let ghost o = out_of(e.model(), les@);
    match enc(cnf, les, e, Ghost(ts)) {
        Err(x) => Err(x),
        Ok(Enc::B(n)) => {
            assert forall|a: Bits| #[trigger] cnf.eval(n, a) == holds(
                sem(e.model(), leaves_at(les@, a)),
            ) by {
                assert(cnf.eval(n, a) == holds(o(a)));
            }
            Ok(n)
        },
        Ok(Enc::P(ps)) => {
            let ghost m0 = *cnf;
            let mut r = ff();
            proof {
                cnf.constants_meaning();
            }
            let mut i: usize = 0;
            assert(ps@.take(0) =~= Seq::empty());
            while i < ps.len()
                invariant
                    i <= ps@.len(),
                    cnf.wf(),
                    cnf.keeps(&m0),
                    cnf.keeps(old(cnf)),
                    all_valid(&m0, ps@),
                    cnf.valid(r),
                    typed(e.model(), ts) matches Some(s) ==> sorted(ps@, s),
                    forall|a: Bits| #[trigger]
                        cnf.eval(r, a) == hit(&m0, ps@.take(i as int), a, Val::Bool(true)),
                decreases ps.len() - i,
            {
                let ghost m1 = *cnf;
                let ghost r0 = r;
                assert(m0.valid(ps@[i as int].1));
                match &ps[i].0 {
                    Value::Bool(b) => {
                        if *b {
                            r = cnf.or(r, ps[i].1);
                        }
                    },
                    _ => {
                        assert(val_sort(ps@[i as int].0.model()) != Sort::B);
                        return Err(bad("boolean expression expected"));
                    },
                }
                proof {
                    assert forall|a: Bits| #[trigger] cnf.eval(r, a) == hit(
                        &m0,
                        ps@.take(i + 1),
                        a,
                        Val::Bool(true),
                    ) by {
                        assert(ps@.take(i + 1) =~= ps@.take(i as int).push(ps@[i as int]));
                        hit_push(&m0, ps@.take(i as int), ps@[i as int], a, Val::Bool(true));
                        assert(m1.eval(r0, a) == hit(
                            &m0,
                            ps@.take(i as int),
                            a,
                            Val::Bool(true),
                        ));
                        assert(m1.eval(ps@[i as int].1, a) == m0.eval(ps@[i as int].1, a));
                    }
                }
                i += 1;
            }
            assert(ps@.take(i as int) =~= ps@);
            assert forall|a: Bits| #[trigger] cnf.eval(r, a) == holds(
                sem(e.model(), leaves_at(les@, a)),
            ) by {
                assert(hit(&m0, ps@, a, Val::Bool(true)) == (o(a) == Some(Val::Bool(true))));
            }
            Ok(r)
        },
    }
}

} // verus!
