//! Symbolic search with binary decision diagrams.
//!
//! A leaf of `k` values is encoded in bits: for each bit one variable of the current state and,
//! next to it, one of the next state.

use crate::arith::{arith_out, bad, compute, leaf_sorts, rel_holds, rel_out, rel_takes, test_rel, Arith, Rel};
use crate::bdd::{current, shifted, with, Asg, Mgr, NodeId, BF, F, T, VAR_LIMIT};
use crate::explicit::EngineError;
use crate::fair::{begins, conjoined, fair_run, fair_search};
use crate::fexpr::{
    all_hold, all_sort, fe_models, holds, is_condition, leaf_sort, leaf_values, number, of_number, product, sem,
    sems, some_holds, total, truth, typed, typeds, unprimed, unprimed_meaning, unprimeds, unprimeds_meaning,
    val_sort, FExpr, LeafId, LeafInfo, LeafType, Leaves, Sort, FE, LT,
};
use crate::flat::{
    allowed, allows, branch_models, branches_allowed, branches_typed, cmd_models, cmds_typed, cmds_unprimed,
    endless_at, every, holds_in, leaf_types, some, some_cmd, state_leaves, step_leaves, tn_models, tn_typed,
    tns_typed, FlatCmd, FlatModule, State, Sys, TransNode, TN,
};
use crate::formula::{has_branching, has_linear, TFormula};
use crate::ltl::{
    is_literal, lits_hold, nn_atoms, nn_sat, nnf, nnf_atoms, nnf_defined, nnf_meaning, tf_sat, to_nnf, translate,
    Lgba, Ltl, Word, NN,
};
use crate::ordering::is_order;
use crate::reach::{
    after, alike, asg_of, below, bits, eg, eu, eventually, find, first_at, forever, found, image, is_rel, is_set,
    join, keys_ok, layers, linked, meet, outside, p2, preimage, reaches, rel_at, rel_of, set_of, sets_of, union,
    within, BR,
};
use crate::tables::{cube_get, Cube};
use crate::temporal::{
    atoms_plain, atoms_typed, ctl, endless_run, sp_all, sp_and, sp_eg, sp_endless, sp_eu, sp_ex, sp_hops, sp_not,
    sp_or, sp_until, sp_until_set, Trace, SP,
};
use crate::text::own;
use crate::value::{models, Val, Value};
use vstd::prelude::*;

verus! {

/// The number that the variables `v`, `v + 2`, ... hold, the lowest bit first.
pub open spec fn code(a: Asg, v: int, bits: nat) -> nat
    decreases bits,
{
    if bits == 0 {
        0
    } else {
        (if a(v as u32) {
            1nat
        } else {
            0nat
        }) + 2 * code(a, v + 2, (bits - 1) as nat)
    }
}

/// Where a leaf is encoded, and its values in the order of their codes.
pub struct LeafEnc {
    base: u32,
    bits: u32,
    is_bool: bool,
    values: Vec<Value>,
}

/// The value of a leaf under an assignment, if the code stands for one.
spec fn leaf_out(e: LeafEnc, primed: bool, a: Asg) -> Option<Val> {
    let c = code(
        a,
        e.base + if primed {
            1int
        } else {
            0int
        },
        e.bits as nat,
    ) as int;
    if c < e.values@.len() {
        Some(e.values@[c].model())
    } else {
        None
    }
}

/// The leaves' values under an assignment.
spec fn leaves_at(es: Seq<LeafEnc>, a: Asg) -> Leaves {
    |l: LeafId, primed: bool|
        if (l as int) < es.len() {
            leaf_out(es[l as int], primed, a)
        } else {
            None
        }
}

/// The leaf's place and values are in order.
spec fn leaf_ok(e: LeafEnc) -> bool {
    &&& e.base % 2 == 0
    &&& 1 <= e.bits <= 64
    &&& e.base + 2 * e.bits < VAR_LIMIT
    &&& e.values@.len() <= p2(e.bits as nat)
    &&& e.is_bool ==> e.bits == 1 && models(e.values@) == seq![Val::Bool(false), Val::Bool(true)]
}

spec fn leaves_ok(es: Seq<LeafEnc>) -> bool {
    &&& forall|l: int| 0 <= l < es.len() ==> leaf_ok(#[trigger] es[l])
    &&& forall|l: int, m: int|
        0 <= l < es.len() && 0 <= m < es.len() && l != m ==> apart(#[trigger] es[l], #[trigger] es[m])
}

/// No variable encodes both leaves.
spec fn apart(e: LeafEnc, f: LeafEnc) -> bool {
    e.base + 2 * e.bits <= f.base || f.base + 2 * f.bits <= e.base
}

/// The encoded leaves are those of the given types.
spec fn encodes(es: Seq<LeafEnc>, ts: Seq<LT>) -> bool {
    &&& es.len() == ts.len()
    &&& forall|l: int|
        0 <= l < es.len() ==> leaf_values(#[trigger] ts[l]) == Some(models(es[l].values@))
            && es[l].is_bool == (ts[l] is Bool)
}

/// A condition as one diagram, or a value as a list of cases.
enum Enc {
    B(NodeId),
    P(Vec<(Value, NodeId)>),
}

/// Some case for the value `v` applies.
spec fn hit(m: &Mgr, ps: Seq<(Value, NodeId)>, a: Asg, v: Val) -> bool {
    exists|i: int| 0 <= i < ps.len() && (#[trigger] ps[i]).0.model() == v && m.eval(ps[i].1, a)
}

spec fn all_valid(m: &Mgr, ps: Seq<(Value, NodeId)>) -> bool {
    forall|i: int| 0 <= i < ps.len() ==> m.valid((#[trigger] ps[i]).1)
}

/// A value that depends on the assignment.
type Out = spec_fn(Asg) -> Option<Val>;

spec fn cases_ok(m: &Mgr, ps: Seq<(Value, NodeId)>, o: Out) -> bool {
    &&& all_valid(m, ps)
    &&& forall|a: Asg, v: Val| #[trigger] hit(m, ps, a, v) == (o(a) == Some(v))
}

spec fn enc_ok(m: &Mgr, r: Enc, o: Out) -> bool {
    match r {
        Enc::B(n) => m.valid(n) && forall|a: Asg| #[trigger] m.eval(n, a) == holds(o(a)) && o(a)
            == truth(m.eval(n, a)),
        Enc::P(ps) => cases_ok(m, ps@, o),
    }
}

/// All cases are of one kind.
spec fn sorted(ps: Seq<(Value, NodeId)>, s: Sort) -> bool {
    forall|i: int| 0 <= i < ps.len() ==> val_sort((#[trigger] ps[i]).0.model()) == s
}

spec fn enc_sorted(r: Enc, s: Sort) -> bool {
    match r {
        Enc::B(_) => s == Sort::B,
        Enc::P(ps) => sorted(ps@, s),
    }
}

/// The value of an expression under each assignment.
spec fn out_of(e: FE, es: Seq<LeafEnc>) -> Out {
    |a: Asg| sem(e, leaves_at(es, a))
}

proof fn hit_push(m: &Mgr, ps: Seq<(Value, NodeId)>, x: (Value, NodeId), a: Asg, v: Val)
    ensures
        hit(m, ps.push(x), a, v) == (hit(m, ps, a, v) || (x.0.model() == v && m.eval(x.1, a))),
{
    let qs = ps.push(x);
    if hit(m, ps, a, v) {
        let i = choose|i: int|
            0 <= i < ps.len() && (#[trigger] ps[i]).0.model() == v && m.eval(ps[i].1, a);
        assert(qs[i] == ps[i]);
    }
    if x.0.model() == v && m.eval(x.1, a) {
        assert(qs[ps.len() as int] == x);
    }
    if hit(m, qs, a, v) {
        let i = choose|i: int|
            0 <= i < qs.len() && (#[trigger] qs[i]).0.model() == v && m.eval(qs[i].1, a);
        if i < ps.len() {
            assert(ps[i] == qs[i]);
        }
    }
}

proof fn hit_keeps(m: &Mgr, old: &Mgr, ps: Seq<(Value, NodeId)>)
    requires
        m.keeps(old),
        all_valid(old, ps),
    ensures
        all_valid(m, ps),
        forall|a: Asg, v: Val| #[trigger] hit(m, ps, a, v) == hit(old, ps, a, v),
{
    assert forall|a: Asg, v: Val| #[trigger] hit(m, ps, a, v) == hit(old, ps, a, v) by {
        if hit(m, ps, a, v) {
            let i = choose|i: int|
                0 <= i < ps.len() && (#[trigger] ps[i]).0.model() == v && m.eval(ps[i].1, a);
            assert(old.eval(ps[i].1, a));
        }
        if hit(old, ps, a, v) {
            let i = choose|i: int|
                0 <= i < ps.len() && (#[trigger] ps[i]).0.model() == v && old.eval(ps[i].1, a);
            assert(m.eval(ps[i].1, a));
        }
    }
}

/// Adds a case, merging it with one for the same value.
fn push_part(mgr: &mut Mgr, parts: &mut Vec<(Value, NodeId)>, v: Value, c: NodeId)
    requires
        old(mgr).wf(),
        all_valid(old(mgr), old(parts)@),
        old(mgr).valid(c),
    ensures
        final(mgr).wf(),
        final(mgr).keeps(old(mgr)),
        all_valid(final(mgr), final(parts)@),
        forall|a: Asg, w: Val| #[trigger]
            hit(final(mgr), final(parts)@, a, w) == (hit(old(mgr), old(parts)@, a, w) || (v.model()
                == w && old(mgr).eval(c, a))),
        forall|s: Sort|
            sorted(old(parts)@, s) && val_sort(v.model()) == s ==> #[trigger] sorted(
                final(parts)@,
                s,
            ),
{
    proof {
        mgr.constants_meaning();
    }
    if c == F {
        return ;
    }
    let ghost ps = parts@;
    let mut i: usize = 0;
    while i < parts.len()
        invariant
            i <= parts@.len(),
            parts@ == ps,
            mgr.wf(),
            *mgr == *old(mgr),
            ps == old(parts)@,
            all_valid(mgr, ps),
            mgr.valid(c),
        decreases parts.len() - i,
    {
        if parts[i].0.same(&v) {
            let c0 = parts[i].1;
            assert(mgr.valid(ps[i as int].1));
            let n = mgr.or(c0, c);
            let old_value = parts[i].0.clone();
            parts.set(i, (old_value, n));
            proof {
                let qs = parts@;
                assert forall|k: int| 0 <= k < qs.len() implies mgr.valid((#[trigger] qs[k]).1) by {
                    if k != i {
                        assert(old(mgr).valid(ps[k].1));
                    }
                }
                assert forall|a: Asg, w: Val| #[trigger] hit(mgr, qs, a, w) == (hit(
                    old(mgr),
                    ps,
                    a,
                    w,
                ) || (v.model() == w && old(mgr).eval(c, a))) by {
                    if hit(mgr, qs, a, w) {
                        let k = choose|k: int|
                            0 <= k < qs.len() && (#[trigger] qs[k]).0.model() == w && mgr.eval(
                                qs[k].1,
                                a,
                            );
                        if k != i {
                            assert(old(mgr).valid(ps[k].1));
                            assert(ps[k] == qs[k]);
                        } else {
                            assert(mgr.eval(n, a));
                            if old(mgr).eval(c0, a) {
                                assert(ps[i as int].1 == c0);
                            }
                        }
                    }
                    if hit(old(mgr), ps, a, w) {
                        let k = choose|k: int|
                            0 <= k < ps.len() && (#[trigger] ps[k]).0.model() == w && old(mgr).eval(
                                ps[k].1,
                                a,
                            );
                        if k != i {
                            assert(old(mgr).valid(ps[k].1));
                            assert(qs[k] == ps[k]);
                        } else {
                            assert(mgr.eval(qs[i as int].1, a));
                        }
                    }
                    if v.model() == w && old(mgr).eval(c, a) {
                        assert(mgr.eval(qs[i as int].1, a));
                    }
                }
                assert forall|s: Sort| sorted(ps, s) && val_sort(v.model()) == s implies #[trigger] sorted(
                    qs,
                    s,
                ) by {
                    assert forall|k: int| 0 <= k < qs.len() implies val_sort(
                        (#[trigger] qs[k]).0.model(),
                    ) == s by {
                        assert(val_sort(ps[k].0.model()) == s);
                    }
                }
            }
            return ;
        }
        i += 1;
    }
    parts.push((v, c));
    proof {
        assert forall|a: Asg, w: Val| #[trigger] hit(mgr, parts@, a, w) == (hit(
            old(mgr),
            ps,
            a,
            w,
        ) || (v.model() == w && old(mgr).eval(c, a))) by {
            hit_push(mgr, ps, (v, c), a, w);
        }
        assert forall|k: int| 0 <= k < parts@.len() implies mgr.valid((#[trigger] parts@[k]).1) by {
            if k < ps.len() {
                assert(mgr.valid(ps[k].1));
            }
        }
    }
}

/// The cases of a condition or value.
fn as_partition(mgr: &mut Mgr, e: Enc, Ghost(o): Ghost<Out>) -> (r: Vec<(Value, NodeId)>)
    requires
        old(mgr).wf(),
        enc_ok(old(mgr), e, o),
    ensures
        final(mgr).wf(),
        final(mgr).keeps(old(mgr)),
        cases_ok(final(mgr), r@, o),
        forall|s: Sort| enc_sorted(e, s) ==> #[trigger] sorted(r@, s),
{
    match e {
        Enc::P(p) => p,
        Enc::B(b) => {
            let nb = mgr.not(b);
            let mut r: Vec<(Value, NodeId)> = Vec::new();
            r.push((Value::Bool(true), b));
            r.push((Value::Bool(false), nb));
            proof {
                let ghost p0 = Seq::<(Value, NodeId)>::empty();
                assert forall|a: Asg, v: Val| #[trigger] hit(mgr, r@, a, v) == (o(a) == Some(v)) by {
                    assert(mgr.eval(b, a) == old(mgr).eval(b, a));
                    assert(mgr.eval(nb, a) == !old(mgr).eval(b, a));
                    assert(o(a) == truth(old(mgr).eval(b, a)));
                    assert(r@[0].0.model() == Val::Bool(true));
                    assert(r@[1].0.model() == Val::Bool(false));
                    if v == Val::Bool(true) && mgr.eval(b, a) {
                        assert(mgr.eval(r@[0].1, a));
                    }
                    if v == Val::Bool(false) && mgr.eval(nb, a) {
                        assert(mgr.eval(r@[1].1, a));
                    }
                }
            }
            r
        },
    }
}

/// A pair of cases that apply together.
struct Both {
    x: Value,
    y: Value,
    c: NodeId,
}

spec fn both_hit(m: &Mgr, ts: Seq<Both>, a: Asg, v: Val, w: Val) -> bool {
    exists|i: int|
        0 <= i < ts.len() && (#[trigger] ts[i]).x.model() == v && ts[i].y.model() == w && m.eval(
            ts[i].c,
            a,
        )
}

spec fn both_valid(m: &Mgr, ts: Seq<Both>) -> bool {
    forall|i: int| 0 <= i < ts.len() ==> m.valid((#[trigger] ts[i]).c)
}

spec fn both_sorted(ts: Seq<Both>, s: Sort, t: Sort) -> bool {
    forall|i: int|
        0 <= i < ts.len() ==> val_sort((#[trigger] ts[i]).x.model()) == s && val_sort(
            ts[i].y.model(),
        ) == t
}

proof fn both_push(m: &Mgr, ts: Seq<Both>, x: Both, a: Asg, v: Val, w: Val)
    ensures
        both_hit(m, ts.push(x), a, v, w) == (both_hit(m, ts, a, v, w) || (x.x.model() == v
            && x.y.model() == w && m.eval(x.c, a))),
{
    let qs = ts.push(x);
    if both_hit(m, ts, a, v, w) {
        let i = choose|i: int|
            0 <= i < ts.len() && (#[trigger] ts[i]).x.model() == v && ts[i].y.model() == w && m.eval(
                ts[i].c,
                a,
            );
        assert(qs[i] == ts[i]);
    }
    if x.x.model() == v && x.y.model() == w && m.eval(x.c, a) {
        assert(qs[ts.len() as int] == x);
    }
    if both_hit(m, qs, a, v, w) {
        let i = choose|i: int|
            0 <= i < qs.len() && (#[trigger] qs[i]).x.model() == v && qs[i].y.model() == w && m.eval(
                qs[i].c,
                a,
            );
        if i < ts.len() {
            assert(ts[i] == qs[i]);
        }
    }
}

proof fn both_keeps(m: &Mgr, old: &Mgr, ts: Seq<Both>)
    requires
        m.keeps(old),
        both_valid(old, ts),
    ensures
        both_valid(m, ts),
        forall|a: Asg, v: Val, w: Val| #[trigger]
            both_hit(m, ts, a, v, w) == both_hit(old, ts, a, v, w),
{
    assert forall|a: Asg, v: Val, w: Val| #[trigger] both_hit(m, ts, a, v, w) == both_hit(
        old,
        ts,
        a,
        v,
        w,
    ) by {
        if both_hit(m, ts, a, v, w) {
            let i = choose|i: int|
                0 <= i < ts.len() && (#[trigger] ts[i]).x.model() == v && ts[i].y.model() == w
                    && m.eval(ts[i].c, a);
            assert(old.eval(ts[i].c, a));
        }
        if both_hit(old, ts, a, v, w) {
            let i = choose|i: int|
                0 <= i < ts.len() && (#[trigger] ts[i]).x.model() == v && ts[i].y.model() == w
                    && old.eval(ts[i].c, a);
            assert(m.eval(ts[i].c, a));
        }
    }
}

/// All pairs of cases.
fn pairs_of(
    mgr: &mut Mgr,
    px: &Vec<(Value, NodeId)>,
    py: &Vec<(Value, NodeId)>,
    Ghost(ox): Ghost<Out>,
    Ghost(oy): Ghost<Out>,
) -> (r: Vec<Both>)
    requires
        old(mgr).wf(),
        cases_ok(old(mgr), px@, ox),
        cases_ok(old(mgr), py@, oy),
    ensures
        final(mgr).wf(),
        final(mgr).keeps(old(mgr)),
        both_valid(final(mgr), r@),
        forall|a: Asg, v: Val, w: Val| #[trigger]
            both_hit(final(mgr), r@, a, v, w) == (ox(a) == Some(v) && oy(a) == Some(w)),
        forall|s: Sort, t: Sort|
            sorted(px@, s) && sorted(py@, t) ==> #[trigger] both_sorted(r@, s, t),
{
    let mut r: Vec<Both> = Vec::new();
    let mut i: usize = 0;
    assert(px@.take(0) =~= Seq::empty());
    while i < px.len()
        invariant
            i <= px@.len(),
            mgr.wf(),
            mgr.keeps(old(mgr)),
            all_valid(old(mgr), px@),
            all_valid(old(mgr), py@),
            both_valid(mgr, r@),
            forall|a: Asg, v: Val, w: Val| #[trigger]
                both_hit(mgr, r@, a, v, w) == (hit(old(mgr), px@.take(i as int), a, v) && hit(
                    old(mgr),
                    py@,
                    a,
                    w,
                )),
            forall|s: Sort, t: Sort|
                sorted(px@, s) && sorted(py@, t) ==> #[trigger] both_sorted(r@, s, t),
        decreases px.len() - i,
    {
        let ghost r0 = r@;
        let ghost m0 = *mgr;
        let c1 = px[i].1;
        let mut j: usize = 0;
        proof {
            assert(py@.take(0) =~= Seq::empty());
            assert(forall|a: Asg, w: Val| !hit(old(mgr), py@.take(0), a, w));
        }
        while j < py.len()
            invariant
                i < px@.len(),
                j <= py@.len(),
                c1 == px@[i as int].1,
                mgr.wf(),
                mgr.keeps(old(mgr)),
                all_valid(old(mgr), px@),
                all_valid(old(mgr), py@),
                both_valid(mgr, r@),
                forall|a: Asg, v: Val, w: Val| #[trigger]
                    both_hit(mgr, r@, a, v, w) == ((hit(old(mgr), px@.take(i as int), a, v) && hit(
                        old(mgr),
                        py@,
                        a,
                        w,
                    )) || (px@[i as int].0.model() == v && old(mgr).eval(c1, a) && hit(
                        old(mgr),
                        py@.take(j as int),
                        a,
                        w,
                    ))),
                forall|s: Sort, t: Sort|
                    sorted(px@, s) && sorted(py@, t) ==> #[trigger] both_sorted(r@, s, t),
            decreases py.len() - j,
        {
            let ghost m1 = *mgr;
            let ghost r1 = r@;
            let c2 = py[j].1;
            assert(old(mgr).valid(px@[i as int].1));
            assert(old(mgr).valid(py@[j as int].1));
            let c = mgr.and(c1, c2);
            proof {
                both_keeps(mgr, &m1, r1);
            }
            let b = Both { x: px[i].0.clone(), y: py[j].0.clone(), c };
            r.push(b);
            proof {
                assert forall|a: Asg, v: Val, w: Val| #[trigger] both_hit(mgr, r@, a, v, w) == ((hit(
                    old(mgr),
                    px@.take(i as int),
                    a,
                    v,
                ) && hit(old(mgr), py@, a, w)) || (px@[i as int].0.model() == v && old(mgr).eval(c1, a)
                    && hit(old(mgr), py@.take(j + 1), a, w))) by {
                    both_push(mgr, r1, b, a, v, w);
                    assert(py@.take(j + 1) =~= py@.take(j as int).push(py@[j as int]));
                    hit_push(old(mgr), py@.take(j as int), py@[j as int], a, w);
                    assert(mgr.eval(c, a) == (m1.eval(c1, a) && m1.eval(c2, a)));
                    assert(m1.eval(c1, a) == old(mgr).eval(c1, a));
                    assert(m1.eval(c2, a) == old(mgr).eval(c2, a));
                }
                assert forall|s: Sort, t: Sort| sorted(px@, s) && sorted(py@, t) implies #[trigger] both_sorted(
                    r@,
                    s,
                    t,
                ) by {
                    assert(both_sorted(r1, s, t));
                    assert forall|k: int| 0 <= k < r@.len() implies val_sort(
                        (#[trigger] r@[k]).x.model(),
                    ) == s && val_sort(r@[k].y.model()) == t by {
                        if k < r1.len() {
                            assert(val_sort(r1[k].x.model()) == s);
                        } else {
                            assert(val_sort(px@[i as int].0.model()) == s);
                            assert(val_sort(py@[j as int].0.model()) == t);
                        }
                    }
                }
                assert forall|k: int| 0 <= k < r@.len() implies mgr.valid((#[trigger] r@[k]).c) by {
                    if k < r1.len() {
                        assert(mgr.valid(r1[k].c));
                    }
                }
            }
            j += 1;
        }
        proof {
            assert(py@.take(j as int) =~= py@);
            assert forall|a: Asg, v: Val, w: Val| #[trigger] both_hit(mgr, r@, a, v, w) == (hit(
                old(mgr),
                px@.take(i + 1),
                a,
                v,
            ) && hit(old(mgr), py@, a, w)) by {
                assert(px@.take(i + 1) =~= px@.take(i as int).push(px@[i as int]));
                hit_push(old(mgr), px@.take(i as int), px@[i as int], a, v);
            }
        }
        i += 1;
    }
    proof {
        assert(px@.take(i as int) =~= px@);
        assert forall|a: Asg, v: Val, w: Val| #[trigger] both_hit(mgr, r@, a, v, w) == (ox(a) == Some(v)
            && oy(a) == Some(w)) by {
            assert(hit(old(mgr), px@, a, v) == (ox(a) == Some(v)));
            assert(hit(old(mgr), py@, a, w) == (oy(a) == Some(w)));
        }
    }
    r
}

spec fn related(m: &Mgr, ts: Seq<Both>, how: Rel, n: int, a: Asg) -> bool {
    exists|k: int|
        0 <= k < n && rel_holds(how, (#[trigger] ts[k]).x.model(), ts[k].y.model()) && m.eval(
            ts[k].c,
            a,
        )
}

/// Where the relation holds.
fn relate(
    mgr: &mut Mgr,
    ts: &Vec<Both>,
    how: Rel,
    Ghost(ox): Ghost<Out>,
    Ghost(oy): Ghost<Out>,
) -> (r: Option<NodeId>)
    requires
        old(mgr).wf(),
        both_valid(old(mgr), ts@),
        forall|a: Asg, v: Val, w: Val| #[trigger]
            both_hit(old(mgr), ts@, a, v, w) == (ox(a) == Some(v) && oy(a) == Some(w)),
    ensures
        final(mgr).wf(),
        final(mgr).keeps(old(mgr)),
        match r {
            Some(n) => final(mgr).valid(n) && forall|a: Asg| #[trigger]
                final(mgr).eval(n, a) == rel_out(how, ox(a), oy(a)),
            None => exists|k: int|
                0 <= k < ts@.len() && !rel_takes(
                    how,
                    (#[trigger] ts@[k]).x.model(),
                    ts@[k].y.model(),
                ),
        },
{
    proof {
        mgr.constants_meaning();
    }
    let mut n = F;
    let mut i: usize = 0;
    while i < ts.len()
        invariant
            i <= ts@.len(),
            mgr.wf(),
            mgr.keeps(old(mgr)),
            mgr.valid(n),
            both_valid(old(mgr), ts@),
            forall|a: Asg| #[trigger] mgr.eval(n, a) == related(old(mgr), ts@, how, i as int, a),
        decreases ts.len() - i,
    {
        assert(old(mgr).valid(ts@[i as int].c));
        let ghost m0 = *mgr;
        let ghost n0 = n;
        match test_rel(how, &ts[i].x, &ts[i].y) {
            None => {
                return None;
            },
            Some(b) => {
                if b {
                    n = mgr.or(n, ts[i].c);
                }
                proof {
                    assert forall|a: Asg| #[trigger] mgr.eval(n, a) == related(
                        old(mgr),
                        ts@,
                        how,
                        i + 1,
                        a,
                    ) by {
                        assert(m0.eval(n0, a) == related(old(mgr), ts@, how, i as int, a));
                        assert(m0.eval(ts@[i as int].c, a) == old(mgr).eval(ts@[i as int].c, a));
                        if related(old(mgr), ts@, how, i as int, a) {
                            let k = choose|k: int|
                                0 <= k < i && rel_holds(
                                    how,
                                    (#[trigger] ts@[k]).x.model(),
                                    ts@[k].y.model(),
                                ) && old(mgr).eval(ts@[k].c, a);
                            assert(0 <= k < i + 1);
                        }
                    }
                }
            },
        }
        i += 1;
    }
    proof {
        assert forall|a: Asg| #[trigger] mgr.eval(n, a) == rel_out(how, ox(a), oy(a)) by {
            if related(old(mgr), ts@, how, i as int, a) {
                let k = choose|k: int|
                    0 <= k < i && rel_holds(how, (#[trigger] ts@[k]).x.model(), ts@[k].y.model())
                        && old(mgr).eval(ts@[k].c, a);
                assert(both_hit(old(mgr), ts@, a, ts@[k].x.model(), ts@[k].y.model()));
            }
            if rel_out(how, ox(a), oy(a)) {
                assert(both_hit(old(mgr), ts@, a, ox(a)->0, oy(a)->0));
                let k = choose|k: int|
                    0 <= k < ts@.len() && (#[trigger] ts@[k]).x.model() == ox(a)->0
                        && ts@[k].y.model() == oy(a)->0 && old(mgr).eval(ts@[k].c, a);
                assert(related(old(mgr), ts@, how, i as int, a));
            }
        }
    }
    Some(n)
}

spec fn combined(m: &Mgr, ts: Seq<Both>, how: Arith, n: int, a: Asg, v: Val) -> bool {
    exists|k: int|
        0 <= k < n && arith_out(
            how,
            Some((#[trigger] ts[k]).x.model()),
            Some(ts[k].y.model()),
        ) == Some(v) && m.eval(ts[k].c, a)
}

/// The cases of the operation's result.
fn combine(
    mgr: &mut Mgr,
    ts: &Vec<Both>,
    how: Arith,
    Ghost(ox): Ghost<Out>,
    Ghost(oy): Ghost<Out>,
) -> (r: Option<Vec<(Value, NodeId)>>)
    requires
        old(mgr).wf(),
        both_valid(old(mgr), ts@),
        forall|a: Asg, v: Val, w: Val| #[trigger]
            both_hit(old(mgr), ts@, a, v, w) == (ox(a) == Some(v) && oy(a) == Some(w)),
    ensures
        final(mgr).wf(),
        final(mgr).keeps(old(mgr)),
        match r {
            Some(ps) => cases_ok(final(mgr), ps@, |a: Asg| arith_out(how, ox(a), oy(a))) && sorted(
                ps@,
                Sort::N,
            ),
            None => exists|k: int|
                0 <= k < ts@.len() && !((#[trigger] ts@[k]).x.model() is Num
                    && ts@[k].y.model() is Num),
        },
{
    let mut out: Vec<(Value, NodeId)> = Vec::new();
    let mut i: usize = 0;
    while i < ts.len()
        invariant
            i <= ts@.len(),
            mgr.wf(),
            mgr.keeps(old(mgr)),
            all_valid(mgr, out@),
            both_valid(old(mgr), ts@),
            sorted(out@, Sort::N),
            forall|a: Asg, v: Val| #[trigger]
                hit(mgr, out@, a, v) == combined(old(mgr), ts@, how, i as int, a, v),
        decreases ts.len() - i,
    {
        assert(old(mgr).valid(ts@[i as int].c));
        let ghost m0 = *mgr;
        let ghost out0 = out@;
        match (&ts[i].x, &ts[i].y) {
            (Value::Num(x), Value::Num(y)) => {
                match compute(how, x, y) {
                    Some(z) => {
                        push_part(mgr, &mut out, Value::Num(z), ts[i].c);
                        assert(sorted(out@, Sort::N));
                    },
                    None => {},
                }
            },
            _ => {
                return None;
            },
        }
        proof {
            assert forall|a: Asg, v: Val| #[trigger] hit(mgr, out@, a, v) == combined(
                old(mgr),
                ts@,
                how,
                i + 1,
                a,
                v,
            ) by {
                assert(hit(&m0, out0, a, v) == combined(old(mgr), ts@, how, i as int, a, v));
                assert(m0.eval(ts@[i as int].c, a) == old(mgr).eval(ts@[i as int].c, a));
                if combined(old(mgr), ts@, how, i as int, a, v) {
                    let k = choose|k: int|
                        0 <= k < i && arith_out(
                            how,
                            Some((#[trigger] ts@[k]).x.model()),
                            Some(ts@[k].y.model()),
                        ) == Some(v) && old(mgr).eval(ts@[k].c, a);
                    assert(0 <= k < i + 1);
                }
            }
        }
        i += 1;
    }
    proof {
        let o = |a: Asg| arith_out(how, ox(a), oy(a));
        assert forall|a: Asg, v: Val| #[trigger] hit(mgr, out@, a, v) == (o(a) == Some(v)) by {
            if combined(old(mgr), ts@, how, i as int, a, v) {
                let k = choose|k: int|
                    0 <= k < i && arith_out(
                        how,
                        Some((#[trigger] ts@[k]).x.model()),
                        Some(ts@[k].y.model()),
                    ) == Some(v) && old(mgr).eval(ts@[k].c, a);
                assert(both_hit(old(mgr), ts@, a, ts@[k].x.model(), ts@[k].y.model()));
            }
            if o(a) == Some(v) {
                assert(both_hit(old(mgr), ts@, a, ox(a)->0, oy(a)->0));
                let k = choose|k: int|
                    0 <= k < ts@.len() && (#[trigger] ts@[k]).x.model() == ox(a)->0
                        && ts@[k].y.model() == oy(a)->0 && old(mgr).eval(ts@[k].c, a);
                assert(combined(old(mgr), ts@, how, i as int, a, v));
            }
        }
    }
    Some(out)
}

/// Where the `bits` variables from `v` on, every other one, hold the number `i`.
fn eq_code(mgr: &mut Mgr, v: u32, bits: u32, i: usize) -> (r: NodeId)
    requires
        old(mgr).wf(),
        v + 2 * bits < VAR_LIMIT,
    ensures
        final(mgr).wf(),
        final(mgr).keeps(old(mgr)),
        final(mgr).valid(r),
        forall|a: Asg| #[trigger] final(mgr).eval(r, a) == (code(a, v as int, bits as nat) == i),
    decreases bits,
{
    proof {
        mgr.constants_meaning();
    }
    if bits == 0 {
        if i == 0 {
            return T;
        } else {
            return F;
        }
    }
    let rest = eq_code(mgr, v + 2, bits - 1, i / 2);
    let ghost m1 = *mgr;
    let lit = if i % 2 == 1 {
        mgr.var(v)
    } else {
        mgr.nvar(v)
    };
    let ghost m2 = *mgr;
    let r = mgr.and(lit, rest);
    proof {
        assert forall|a: Asg| #[trigger] mgr.eval(r, a) == (code(a, v as int, bits as nat) == i) by {
            assert(m2.eval(lit, a) == (a(v) == (i % 2 == 1)));
            assert(m2.eval(rest, a) == m1.eval(rest, a));
            assert(m1.eval(rest, a) == (code(a, v + 2, (bits - 1) as nat) == i / 2));
        }
    }
    r
}

/// Where the leaf has its value number `i`.
fn leaf_eq_index(mgr: &mut Mgr, e: &LeafEnc, primed: bool, i: usize) -> (r: NodeId)
    requires
        old(mgr).wf(),
        leaf_ok(*e),
    ensures
        final(mgr).wf(),
        final(mgr).keeps(old(mgr)),
        final(mgr).valid(r),
        forall|a: Asg| #[trigger]
            final(mgr).eval(r, a) == (code(
                a,
                e.base + if primed {
                    1int
                } else {
                    0int
                },
                e.bits as nat,
            ) == i),
{
    let v: u32 = if primed {
        e.base + 1
    } else {
        e.base
    };
    eq_code(mgr, v, e.bits, i)
}

spec fn leaf_hit(m: &Mgr, ps: Seq<(Value, NodeId)>, n: int, e: LeafEnc, primed: bool) -> bool {
    forall|a: Asg, v: Val| #[trigger]
        hit(m, ps, a, v) == {
            let c = code(
                a,
                e.base + if primed {
                    1int
                } else {
                    0int
                },
                e.bits as nat,
            ) as int;
            c < n && e.values@[c].model() == v
        }
}

/// A leaf as a condition or cases.
fn enc_leaf(
    mgr: &mut Mgr,
    e: &LeafEnc,
    primed: bool,
    Ghost(t): Ghost<LT>,
) -> (r: Enc)
    requires
        old(mgr).wf(),
        leaf_ok(*e),
        leaf_values(t) == Some(models(e.values@)),
        e.is_bool == (t is Bool),
    ensures
        final(mgr).wf(),
        final(mgr).keeps(old(mgr)),
        enc_ok(final(mgr), r, |a: Asg| leaf_out(*e, primed, a)),
        enc_sorted(r, leaf_sort(t)),
{
    let ghost o = |a: Asg| leaf_out(*e, primed, a);
    if e.is_bool {
        let v: u32 = if primed {
            e.base + 1
        } else {
            e.base
        };
        let n = mgr.var(v);
        proof {
            assert forall|a: Asg| #[trigger] mgr.eval(n, a) == holds(o(a)) && o(a) == truth(
                mgr.eval(n, a),
            ) by {
                reveal_with_fuel(code, 2);
                assert(code(a, v as int, 1) == if a(v) {
                    1nat
                } else {
                    0nat
                });
                assert(models(e.values@).len() == e.values@.len());
                assert(models(e.values@)[0] == e.values@[0].model());
                assert(models(e.values@)[1] == e.values@[1].model());
            }
        }
        return Enc::B(n);
    }
    let mut ps: Vec<(Value, NodeId)> = Vec::new();
    let mut i: usize = 0;
    while i < e.values.len()
        invariant
            i <= e.values@.len(),
            ps@.len() == i,
            mgr.wf(),
            mgr.keeps(old(mgr)),
            leaf_ok(*e),
            leaf_values(t) == Some(models(e.values@)),
            all_valid(mgr, ps@),
            sorted(ps@, leaf_sort(t)),
            leaf_hit(mgr, ps@, i as int, *e, primed),
        decreases e.values.len() - i,
    {
        let ghost m0 = *mgr;
        let ghost ps0 = ps@;
        let c = leaf_eq_index(mgr, e, primed, i);
        proof {
            hit_keeps(mgr, &m0, ps0);
            leaf_sorts(t, e.values@, i as int);
        }
        let val = e.values[i].clone();
        ps.push((val, c));
        proof {
            assert forall|a: Asg, v: Val| #[trigger] hit(mgr, ps@, a, v) == {
                let k = code(
                    a,
                    e.base + if primed {
                        1int
                    } else {
                        0int
                    },
                    e.bits as nat,
                ) as int;
                k < i + 1 && e.values@[k].model() == v
            } by {
                hit_push(mgr, ps0, (val, c), a, v);
                assert(hit(&m0, ps0, a, v) == hit(mgr, ps0, a, v));
            }
            assert forall|k: int| 0 <= k < ps@.len() implies mgr.valid((#[trigger] ps@[k]).1)
                && val_sort(ps@[k].0.model()) == leaf_sort(t) by {
                if k < ps0.len() {
                    assert(mgr.valid(ps0[k].1));
                    assert(val_sort(ps0[k].0.model()) == leaf_sort(t));
                }
            }
        }
        i += 1;
    }
    proof {
        assert forall|a: Asg, v: Val| #[trigger] hit(mgr, ps@, a, v) == (o(a) == Some(v)) by {}
    }
    Enc::P(ps)
}

proof fn cases_ext(m: &Mgr, ps: Seq<(Value, NodeId)>, o: Out, p: Out)
    requires
        cases_ok(m, ps, o),
        forall|a: Asg| #[trigger] o(a) == p(a),
    ensures
        cases_ok(m, ps, p),
{
    assert forall|a: Asg, v: Val| #[trigger] hit(m, ps, a, v) == (p(a) == Some(v)) by {
        assert(o(a) == p(a));
    }
}

proof fn cases_keeps(m: &Mgr, old: &Mgr, ps: Seq<(Value, NodeId)>, o: Out)
    requires
        m.keeps(old),
        cases_ok(old, ps, o),
    ensures
        cases_ok(m, ps, o),
{
    hit_keeps(m, old, ps);
}

proof fn enc_keeps(m: &Mgr, old: &Mgr, x: Enc, o: Out)
    requires
        m.keeps(old),
        enc_ok(old, x, o),
    ensures
        enc_ok(m, x, o),
{
    match x {
        Enc::B(n) => {
            assert forall|a: Asg| #[trigger] m.eval(n, a) == holds(o(a)) && o(a) == truth(
                m.eval(n, a),
            ) by {
                assert(m.eval(n, a) == old.eval(n, a));
            }
        },
        Enc::P(ps) => {
            cases_keeps(m, old, ps@, o);
        },
    }
}

/// The cases of the sum or product of expressions.
fn enc_fold(
    mgr: &mut Mgr,
    les: &Vec<LeafEnc>,
    es: &Vec<FExpr>,
    mul: bool,
    Ghost(ts): Ghost<Seq<LT>>,
) -> (r: Result<Vec<(Value, NodeId)>, EngineError>)
    requires
        old(mgr).wf(),
        leaves_ok(les@),
        encodes(les@, ts),
    ensures
        final(mgr).wf(),
        final(mgr).keeps(old(mgr)),
        match r {
            Ok(ps) => cases_ok(final(mgr), ps@, fold_out(fe_models(es@), les@, mul)) && sorted(
                ps@,
                Sort::N,
            ),
            Err(x) => x is Eval && !all_sort(typeds(fe_models(es@), ts), Sort::N),
        },
    decreases es, 0nat,
{
    let ghost ms = fe_models(es@);
    let mut acc: Vec<(Value, NodeId)> = Vec::new();
    let unit = if mul {
        Value::integer(1)
    } else {
        Value::integer(0)
    };
    acc.push((unit, T));
    proof {
        mgr.constants_meaning();
        let o = fold_out(ms.take(0), les@, mul);
        assert forall|a: Asg, v: Val| #[trigger] hit(mgr, acc@, a, v) == (o(a) == Some(v)) by {
            assert(sems(ms.take(0), leaves_at(les@, a)) =~= Seq::empty());
            assert(acc@[0].0.model() == unit.model());
            assert(mgr.eval(acc@[0].1, a));
        }
    }
    let mut i: usize = 0;
    while i < es.len()
        invariant
            i <= es@.len(),
            ms == fe_models(es@),
            mgr.wf(),
            mgr.keeps(old(mgr)),
            leaves_ok(les@),
            encodes(les@, ts),
            sorted(acc@, Sort::N),
            cases_ok(mgr, acc@, fold_out(ms.take(i as int), les@, mul)),
        decreases es.len() - i,
    {
        let ghost oa = fold_out(ms.take(i as int), les@, mul);
        let ghost ox = out_of(ms[i as int], les@);
        let ghost m0 = *mgr;
        match enc(mgr, les, &es[i], Ghost(ts)) {
            Err(x) => {
                proof {
                    assert(typeds(ms, ts)[i as int] is None);
                }
                return Err(x);
            },
            Ok(x) => {
                let ghost m1 = *mgr;
                let px = as_partition(mgr, x, Ghost(ox));
                proof {
                    cases_keeps(mgr, &m0, acc@, oa);
                }
                let pairs = pairs_of(mgr, &acc, &px, Ghost(oa), Ghost(ox));
                let how = if mul {
                    Arith::Mul
                } else {
                    Arith::Add
                };
                match combine(mgr, &pairs, how, Ghost(oa), Ghost(ox)) {
                    None => {
                        proof {
                            if typed(ms[i as int], ts) == Some(Sort::N) {
                                assert(enc_sorted(x, Sort::N));
                                assert(sorted(px@, Sort::N));
                                assert(both_sorted(pairs@, Sort::N, Sort::N));
                            }
                            assert(typeds(ms, ts)[i as int] == typed(ms[i as int], ts));
                        }
                        return Err(bad("number expected"));
                    },
                    Some(ps) => {
                        proof {
                            let o1 = |a: Asg| arith_out(how, oa(a), ox(a));
                            let o2 = fold_out(ms.take(i + 1), les@, mul);
                            assert forall|a: Asg| #[trigger] o1(a) == o2(a) by {
                                let env = leaves_at(les@, a);
                                let outs = sems(ms.take(i + 1), env);
                                assert(outs.drop_last() =~= sems(ms.take(i as int), env));
                                assert(outs.last() == sem(ms[i as int], env));
                            }
                            cases_ext(mgr, ps@, o1, o2);
                        }
                        acc = ps;
                    },
                }
            },
        }
        i += 1;
    }
    assert(ms.take(i as int) =~= ms);
    Ok(acc)
}

spec fn fold_out(ms: Seq<FE>, les: Seq<LeafEnc>, mul: bool) -> Out {
    |a: Asg|
        of_number(
            if mul {
                product(sems(ms, leaves_at(les, a)))
            } else {
                total(sems(ms, leaves_at(les, a)))
            },
        )
}

/// All pairs of cases of two expressions.
fn enc_pairs(
    mgr: &mut Mgr,
    les: &Vec<LeafEnc>,
    x: Enc,
    y: Enc,
    Ghost(ox): Ghost<Out>,
    Ghost(oy): Ghost<Out>,
) -> (r: Vec<Both>)
    requires
        old(mgr).wf(),
        enc_ok(old(mgr), x, ox),
        enc_ok(old(mgr), y, oy),
    ensures
        final(mgr).wf(),
        final(mgr).keeps(old(mgr)),
        both_valid(final(mgr), r@),
        forall|a: Asg, v: Val, w: Val| #[trigger]
            both_hit(final(mgr), r@, a, v, w) == (ox(a) == Some(v) && oy(a) == Some(w)),
        forall|s: Sort, t: Sort|
            enc_sorted(x, s) && enc_sorted(y, t) ==> #[trigger] both_sorted(r@, s, t),
{
    let ghost m0 = *mgr;
    let px = as_partition(mgr, x, Ghost(ox));
    proof {
        enc_keeps(mgr, &m0, y, oy);
    }
    let ghost m1 = *mgr;
    let py = as_partition(mgr, y, Ghost(oy));
    proof {
        cases_keeps(mgr, &m1, px@, ox);
    }
    let r = pairs_of(mgr, &px, &py, Ghost(ox), Ghost(oy));
    assert forall|s: Sort, t: Sort| enc_sorted(x, s) && enc_sorted(y, t) implies #[trigger] both_sorted(
        r@,
        s,
        t,
    ) by {
        assert(sorted(px@, s));
        assert(sorted(py@, t));
    }
    r
}

/// Two expressions, encoded.
fn enc_two(
    mgr: &mut Mgr,
    les: &Vec<LeafEnc>,
    a: &Box<FExpr>,
    b: &Box<FExpr>,
    Ghost(ts): Ghost<Seq<LT>>,
    Ghost(whole): Ghost<FExpr>,
) -> (r: Result<(Enc, Enc), EngineError>)
    requires
        decreases_to!(whole => *a),
        decreases_to!(whole => *b),
        old(mgr).wf(),
        leaves_ok(les@),
        encodes(les@, ts),
    ensures
        final(mgr).wf(),
        final(mgr).keeps(old(mgr)),
        match r {
            Ok((x, y)) => {
                &&& enc_ok(final(mgr), x, out_of(a.model(), les@))
                &&& enc_ok(final(mgr), y, out_of(b.model(), les@))
                &&& typed(a.model(), ts) matches Some(s) ==> enc_sorted(x, s)
                &&& typed(b.model(), ts) matches Some(s) ==> enc_sorted(y, s)
            },
            Err(x) => x is Eval && (typed(a.model(), ts) is None || typed(b.model(), ts) is None),
        },
    decreases whole, 1nat,
{
    let x = match enc(mgr, les, a, Ghost(ts)) {
        Ok(x) => x,
        Err(err) => {
            return Err(err);
        },
    };
    let ghost m1 = *mgr;
    let y = match enc(mgr, les, b, Ghost(ts)) {
        Ok(y) => y,
        Err(err) => {
            return Err(err);
        },
    };
    proof {
        enc_keeps(mgr, &m1, x, out_of(a.model(), les@));
    }
    Ok((x, y))
}

/// A comparison of two expressions.
fn enc_rel(
    mgr: &mut Mgr,
    les: &Vec<LeafEnc>,
    a: &Box<FExpr>,
    b: &Box<FExpr>,
    how: Rel,
    Ghost(ts): Ghost<Seq<LT>>,
    Ghost(whole): Ghost<FExpr>,
) -> (r: Result<NodeId, EngineError>)
    requires
        decreases_to!(whole => *a),
        decreases_to!(whole => *b),
        old(mgr).wf(),
        leaves_ok(les@),
        encodes(les@, ts),
    ensures
        final(mgr).wf(),
        final(mgr).keeps(old(mgr)),
        match r {
            Ok(n) => final(mgr).valid(n) && forall|z: Asg| #[trigger]
                final(mgr).eval(n, z) == rel_out(
                    how,
                    sem(a.model(), leaves_at(les@, z)),
                    sem(b.model(), leaves_at(les@, z)),
                ),
            Err(x) => x is Eval && (typed(a.model(), ts) is None || typed(b.model(), ts) is None || (
            !(how is Eq) && !(typed(a.model(), ts) == Some(Sort::N) && typed(b.model(), ts) == Some(
                Sort::N,
            )))),
        },
    decreases whole, 2nat,
{
    let ghost ox = out_of(a.model(), les@);
    let ghost oy = out_of(b.model(), les@);
    let (x, y) = match enc_two(mgr, les, a, b, Ghost(ts), Ghost(whole)) {
        Ok(p) => p,
        Err(err) => {
            return Err(err);
        },
    };
    match (&x, &y, how) {
        (Enc::B(m), Enc::B(n), Rel::Eq) => {
            let ghost m0 = *mgr;
            let r = mgr.iff(*m, *n);
            assert forall|z: Asg| #[trigger] mgr.eval(r, z) == rel_out(
                how,
                sem(a.model(), leaves_at(les@, z)),
                sem(b.model(), leaves_at(les@, z)),
            ) by {
                assert(m0.eval(*m, z) == holds(ox(z)) && ox(z) == truth(m0.eval(*m, z)));
                assert(m0.eval(*n, z) == holds(oy(z)) && oy(z) == truth(m0.eval(*n, z)));
            }
            return Ok(r);
        },
        _ => {},
    }
    let pairs = enc_pairs(mgr, les, x, y, Ghost(ox), Ghost(oy));
    match relate(mgr, &pairs, how, Ghost(ox), Ghost(oy)) {
        Some(n) => {
            assert forall|z: Asg| #[trigger] mgr.eval(n, z) == rel_out(
                how,
                sem(a.model(), leaves_at(les@, z)),
                sem(b.model(), leaves_at(les@, z)),
            ) by {
                assert(mgr.eval(n, z) == rel_out(how, ox(z), oy(z)));
            }
            Ok(n)
        },
        None => {
            proof {
                if typed(a.model(), ts) == Some(Sort::N) && typed(b.model(), ts) == Some(Sort::N) {
                    assert(enc_sorted(x, Sort::N) && enc_sorted(y, Sort::N));
                    assert(both_sorted(pairs@, Sort::N, Sort::N));
                }
            }
            Err(bad("numeric comparison on non-numeric values"))
        },
    }
}

/// An operation on two expressions.
fn enc_arith(
    mgr: &mut Mgr,
    les: &Vec<LeafEnc>,
    a: &Box<FExpr>,
    b: &Box<FExpr>,
    how: Arith,
    Ghost(ts): Ghost<Seq<LT>>,
    Ghost(whole): Ghost<FExpr>,
) -> (r: Result<Vec<(Value, NodeId)>, EngineError>)
    requires
        decreases_to!(whole => *a),
        decreases_to!(whole => *b),
        old(mgr).wf(),
        leaves_ok(les@),
        encodes(les@, ts),
    ensures
        final(mgr).wf(),
        final(mgr).keeps(old(mgr)),
        match r {
            Ok(ps) => sorted(ps@, Sort::N) && cases_ok(
                final(mgr),
                ps@,
                |z: Asg|
                    arith_out(
                        how,
                        sem(a.model(), leaves_at(les@, z)),
                        sem(b.model(), leaves_at(les@, z)),
                    ),
            ),
            Err(x) => x is Eval && !(typed(a.model(), ts) == Some(Sort::N) && typed(b.model(), ts)
                == Some(Sort::N)),
        },
    decreases whole, 2nat,
{
    let ghost ox = out_of(a.model(), les@);
    let ghost oy = out_of(b.model(), les@);
    let (x, y) = match enc_two(mgr, les, a, b, Ghost(ts), Ghost(whole)) {
        Ok(p) => p,
        Err(err) => {
            return Err(err);
        },
    };
    let pairs = enc_pairs(mgr, les, x, y, Ghost(ox), Ghost(oy));
    match combine(mgr, &pairs, how, Ghost(ox), Ghost(oy)) {
        Some(ps) => {
            proof {
                cases_ext(
                    mgr,
                    ps@,
                    |z: Asg| arith_out(how, ox(z), oy(z)),
                    |z: Asg|
                        arith_out(
                            how,
                            sem(a.model(), leaves_at(les@, z)),
                            sem(b.model(), leaves_at(les@, z)),
                        ),
                );
            }
            Ok(ps)
        },
        None => {
            proof {
                if typed(a.model(), ts) == Some(Sort::N) && typed(b.model(), ts) == Some(Sort::N) {
                    assert(enc_sorted(x, Sort::N) && enc_sorted(y, Sort::N));
                    assert(both_sorted(pairs@, Sort::N, Sort::N));
                }
            }
            Err(bad("number expected"))
        },
    }
}

/// A conjunction or disjunction.
fn enc_junction(
    mgr: &mut Mgr,
    les: &Vec<LeafEnc>,
    es: &Vec<FExpr>,
    conj: bool,
    Ghost(ts): Ghost<Seq<LT>>,
) -> (r: Result<NodeId, EngineError>)
    requires
        old(mgr).wf(),
        leaves_ok(les@),
        encodes(les@, ts),
    ensures
        final(mgr).wf(),
        final(mgr).keeps(old(mgr)),
        match r {
            Ok(n) => final(mgr).valid(n) && forall|a: Asg| #[trigger]
                final(mgr).eval(n, a) == if conj {
                    all_hold(sems(fe_models(es@), leaves_at(les@, a)))
                } else {
                    some_holds(sems(fe_models(es@), leaves_at(les@, a)))
                },
            Err(x) => x is Eval && !all_sort(typeds(fe_models(es@), ts), Sort::B),
        },
    decreases es, 0nat,
{
    let ghost ms = fe_models(es@);
    proof {
        mgr.constants_meaning();
    }
    let mut r = if conj {
        T
    } else {
        F
    };
    let stop = if conj {
        F
    } else {
        T
    };
    let mut i: usize = 0;
    while i < es.len()
        invariant
            i <= es@.len(),
            ms == fe_models(es@),
            mgr.wf(),
            mgr.keeps(old(mgr)),
            leaves_ok(les@),
            encodes(les@, ts),
            mgr.valid(r),
            stop == if conj {
                F
            } else {
                T
            },
            forall|a: Asg| #[trigger]
                mgr.eval(r, a) == if conj {
                    all_hold(sems(ms.take(i as int), leaves_at(les@, a)))
                } else {
                    some_holds(sems(ms.take(i as int), leaves_at(les@, a)))
                },
        decreases es.len() - i,
    {
        let ghost m0 = *mgr;
        let ghost r0 = r;
        match enc_bool(mgr, les, &es[i], Ghost(ts)) {
            Err(x) => {
                assert(typeds(ms, ts)[i as int] == typed(ms[i as int], ts));
                return Err(x);
            },
            Ok(n) => {
                let ghost m1 = *mgr;
                r = if conj {
                    mgr.and(r, n)
                } else {
                    mgr.or(r, n)
                };
                proof {
                    assert forall|a: Asg| #[trigger] mgr.eval(r, a) == if conj {
                        all_hold(sems(ms.take(i + 1), leaves_at(les@, a)))
                    } else {
                        some_holds(sems(ms.take(i + 1), leaves_at(les@, a)))
                    } by {
                        let env = leaves_at(les@, a);
                        assert(m1.eval(r0, a) == m0.eval(r0, a));
                        assert(m1.eval(n, a) == holds(sem(ms[i as int], env)));
                        let x = sems(ms.take(i as int), env);
                        let y = sems(ms.take(i + 1), env);
                        assert(y =~= x.push(sem(ms[i as int], env)));
                        if all_hold(y) {
                            assert(holds(y[i as int]));
                            assert forall|k: int| 0 <= k < x.len() implies holds(#[trigger] x[k]) by {
                                assert(y[k] == x[k]);
                            }
                        }
                        if some_holds(x) {
                            let k = choose|k: int| 0 <= k < x.len() && holds(#[trigger] x[k]);
                            assert(holds(y[k]));
                        }
                        if holds(sem(ms[i as int], env)) {
                            assert(holds(y[i as int]));
                        }
                    }
                }
            },
        }
        i += 1;
        if r == stop {
            proof {
                mgr.constants_meaning();
                assert forall|a: Asg| #[trigger] mgr.eval(r, a) == if conj {
                    all_hold(sems(ms, leaves_at(les@, a)))
                } else {
                    some_holds(sems(ms, leaves_at(les@, a)))
                } by {
                    let env = leaves_at(les@, a);
                    let x = sems(ms.take(i as int), env);
                    let y = sems(ms, env);
                    assert(forall|k: int| 0 <= k < x.len() ==> x[k] == y[k]);
                    assert(mgr.eval(r, a) == !conj);
                    if conj {
                        let k = choose|k: int| 0 <= k < x.len() && !holds(#[trigger] x[k]);
                        assert(!holds(y[k]));
                    } else {
                        let k = choose|k: int| 0 <= k < x.len() && holds(#[trigger] x[k]);
                        assert(holds(y[k]));
                    }
                }
            }
            return Ok(r);
        }
    }
    assert(ms.take(i as int) =~= ms);
    Ok(r)
}

/// An expression as a condition or cases.
fn enc(
    mgr: &mut Mgr,
    les: &Vec<LeafEnc>,
    e: &FExpr,
    Ghost(ts): Ghost<Seq<LT>>,
) -> (r: Result<Enc, EngineError>)
    requires
        old(mgr).wf(),
        leaves_ok(les@),
        encodes(les@, ts),
    ensures
        final(mgr).wf(),
        final(mgr).keeps(old(mgr)),
        match r {
            Ok(x) => enc_ok(final(mgr), x, out_of(e.model(), les@)) && (typed(
                e.model(),
                ts,
            ) matches Some(s) ==> enc_sorted(x, s)),
            Err(x) => x is Eval && typed(e.model(), ts) is None,
        },
    decreases e, 3nat,
{
    let ghost o = out_of(e.model(), les@);
    match e {
        FExpr::Const(Value::Bool(b)) => {
            proof {
                mgr.constants_meaning();
            }
            let n = if *b {
                T
            } else {
                F
            };
            Ok(Enc::B(n))
        },
        FExpr::Const(v) => {
            let mut ps: Vec<(Value, NodeId)> = Vec::new();
            ps.push((v.clone(), T));
            proof {
                mgr.constants_meaning();
                assert forall|a: Asg, w: Val| #[trigger] hit(mgr, ps@, a, w) == (o(a) == Some(w)) by {
                    assert(ps@[0].0.model() == v.model());
                    assert(mgr.eval(ps@[0].1, a));
                }
            }
            Ok(Enc::P(ps))
        },
        FExpr::Var(l, primed) => {
            if *l as usize >= les.len() {
                return Err(bad("unknown state variable"));
            }
            let r = enc_leaf(mgr, &les[*l as usize], *primed, Ghost(ts[*l as int]));
            proof {
                let o1 = |a: Asg| leaf_out(les@[*l as int], *primed, a);
                assert forall|a: Asg| #[trigger] o1(a) == o(a) by {}
                match &r {
                    Enc::B(n) => {
                        assert forall|a: Asg| #[trigger] mgr.eval(*n, a) == holds(o(a)) && o(a)
                            == truth(mgr.eval(*n, a)) by {
                            assert(o1(a) == o(a));
                        }
                    },
                    Enc::P(ps) => {
                        cases_ext(mgr, ps@, o1, o);
                    },
                }
            }
            Ok(r)
        },
        FExpr::Not(a) => {
            match enc_bool(mgr, les, a, Ghost(ts)) {
                Err(x) => Err(x),
                Ok(n) => {
                    let ghost m0 = *mgr;
                    let r = mgr.not(n);
                    assert forall|z: Asg| #[trigger] mgr.eval(r, z) == holds(o(z)) && o(z) == truth(
                        mgr.eval(r, z),
                    ) by {
                        assert(m0.eval(n, z) == holds(sem(a.model(), leaves_at(les@, z))));
                    }
                    Ok(Enc::B(r))
                },
            }
        },
        FExpr::And(es) => {
            match enc_junction(mgr, les, es, true, Ghost(ts)) {
                Err(x) => Err(x),
                Ok(n) => {
                    assert forall|z: Asg| #[trigger] mgr.eval(n, z) == holds(o(z)) && o(z) == truth(
                        mgr.eval(n, z),
                    ) by {}
                    Ok(Enc::B(n))
                },
            }
        },
        FExpr::Or(es) => {
            match enc_junction(mgr, les, es, false, Ghost(ts)) {
                Err(x) => Err(x),
                Ok(n) => {
                    assert forall|z: Asg| #[trigger] mgr.eval(n, z) == holds(o(z)) && o(z) == truth(
                        mgr.eval(n, z),
                    ) by {}
                    Ok(Enc::B(n))
                },
            }
        },
        FExpr::Ite(c, t, f) => {
            let ghost oc = out_of(c.model(), les@);
            let ghost ot = out_of(t.model(), les@);
            let ghost of = out_of(f.model(), les@);
            let ec = match enc_bool(mgr, les, c, Ghost(ts)) {
                Err(x) => {
                    return Err(x);
                },
                Ok(n) => n,
            };
            let ghost m0 = *mgr;
            let (et, ef) = match enc_two(mgr, les, t, f, Ghost(ts), Ghost(*e)) {
                Err(x) => {
                    return Err(x);
                },
                Ok(p) => p,
            };
            let ghost m1 = *mgr;
            assert forall|z: Asg| #[trigger] m1.eval(ec, z) == holds(oc(z)) by {
                assert(m1.eval(ec, z) == m0.eval(ec, z));
            }
            match (&et, &ef) {
                (Enc::B(x), Enc::B(y)) => {
                    let r = mgr.ite(ec, *x, *y);
                    assert forall|z: Asg| #[trigger] mgr.eval(r, z) == holds(o(z)) && o(z) == truth(
                        mgr.eval(r, z),
                    ) by {
                        assert(m1.eval(ec, z) == holds(oc(z)));
                        assert(m1.eval(*x, z) == holds(ot(z)) && ot(z) == truth(m1.eval(*x, z)));
                        assert(m1.eval(*y, z) == holds(of(z)) && of(z) == truth(m1.eval(*y, z)));
                    }
                    return Ok(Enc::B(r));
                },
                _ => {},
            }
            let pt = as_partition(mgr, et, Ghost(ot));
            let ghost m2 = *mgr;
            proof {
                enc_keeps(mgr, &m1, ef, of);
            }
            let pf = as_partition(mgr, ef, Ghost(of));
            let ghost m3 = *mgr;
            proof {
                cases_keeps(mgr, &m2, pt@, ot);
            }
            let nec = mgr.not(ec);
            let ghost m4 = *mgr;
            proof {
                hit_keeps(mgr, &m3, pt@);
                hit_keeps(mgr, &m3, pf@);
                assert forall|z: Asg| #[trigger] m4.eval(ec, z) == holds(oc(z)) by {
                    assert(m4.eval(ec, z) == m1.eval(ec, z));
                }
            }
            let mut merged: Vec<(Value, NodeId)> = Vec::new();
            guard_cases(mgr, &mut merged, &pt, ec);
            let ghost m5 = *mgr;
            proof {
                hit_keeps(mgr, &m4, pf@);
            }
            guard_cases(mgr, &mut merged, &pf, nec);
            proof {
                assert forall|z: Asg, v: Val| #[trigger] hit(mgr, merged@, z, v) == (o(z) == Some(v)) by {
                    assert(m5.eval(nec, z) == m4.eval(nec, z));
                    assert(m4.eval(nec, z) == !m3.eval(ec, z));
                    assert(m4.eval(ec, z) == holds(oc(z)));
                    assert(m3.eval(ec, z) == m4.eval(ec, z));
                    assert(hit(&m3, pt@, z, v) == (ot(z) == Some(v)));
                    assert(hit(&m3, pf@, z, v) == (of(z) == Some(v)));
                    assert(hit(&m4, pt@, z, v) == hit(&m3, pt@, z, v));
                    assert(hit(&m5, pf@, z, v) == hit(&m4, pf@, z, v));
                    assert(hit(&m4, pf@, z, v) == hit(&m3, pf@, z, v));
                    assert(!hit(&m4, Seq::empty(), z, v));
                }
                if typed(e.model(), ts) is Some {
                    let s = typed(t.model(), ts)->0;
                    assert(enc_sorted(et, s) && enc_sorted(ef, s));
                    assert(sorted(pt@, s) && sorted(pf@, s));
                    assert(sorted(Seq::<(Value, NodeId)>::empty(), s));
                }
            }
            Ok(Enc::P(merged))
        },
        FExpr::Eq(a, b) => {
            match enc_rel(mgr, les, a, b, Rel::Eq, Ghost(ts), Ghost(*e)) {
                Err(x) => Err(x),
                Ok(n) => {
                    assert forall|z: Asg| #[trigger] mgr.eval(n, z) == holds(o(z)) && o(z) == truth(
                        mgr.eval(n, z),
                    ) by {}
                    Ok(Enc::B(n))
                },
            }
        },
        FExpr::Lt(a, b) => {
            match enc_rel(mgr, les, a, b, Rel::Lt, Ghost(ts), Ghost(*e)) {
                Err(x) => Err(x),
                Ok(n) => {
                    assert forall|z: Asg| #[trigger] mgr.eval(n, z) == holds(o(z)) && o(z) == truth(
                        mgr.eval(n, z),
                    ) by {}
                    Ok(Enc::B(n))
                },
            }
        },
        FExpr::Le(a, b) => {
            match enc_rel(mgr, les, a, b, Rel::Le, Ghost(ts), Ghost(*e)) {
                Err(x) => Err(x),
                Ok(n) => {
                    assert forall|z: Asg| #[trigger] mgr.eval(n, z) == holds(o(z)) && o(z) == truth(
                        mgr.eval(n, z),
                    ) by {}
                    Ok(Enc::B(n))
                },
            }
        },
        FExpr::Add(es) => {
            match enc_fold(mgr, les, es, false, Ghost(ts)) {
                Err(x) => Err(x),
                Ok(ps) => {
                    proof {
                        cases_ext(mgr, ps@, fold_out(fe_models(es@), les@, false), o);
                    }
                    Ok(Enc::P(ps))
                },
            }
        },
        FExpr::Mul(es) => {
            match enc_fold(mgr, les, es, true, Ghost(ts)) {
                Err(x) => Err(x),
                Ok(ps) => {
                    proof {
                        cases_ext(mgr, ps@, fold_out(fe_models(es@), les@, true), o);
                    }
                    Ok(Enc::P(ps))
                },
            }
        },
        FExpr::Neg(a) => {
            let ghost oa = out_of(a.model(), les@);
            match enc(mgr, les, a, Ghost(ts)) {
                Err(x) => Err(x),
                Ok(x) => {
                    let pa = as_partition(mgr, x, Ghost(oa));
                    match negate_cases(mgr, &pa, Ghost(oa)) {
                        None => {
                            proof {
                                if typed(a.model(), ts) == Some(Sort::N) {
                                    assert(enc_sorted(x, Sort::N));
                                    assert(sorted(pa@, Sort::N));
                                }
                            }
                            Err(bad("number expected"))
                        },
                        Some(ps) => {
                            proof {
                                cases_ext(mgr, ps@, neg_out(oa), o);
                            }
                            Ok(Enc::P(ps))
                        },
                    }
                },
            }
        },
        FExpr::Div(a, b) => {
            match enc_arith(mgr, les, a, b, Arith::Div, Ghost(ts), Ghost(*e)) {
                Err(x) => Err(x),
                Ok(ps) => {
                    proof {
                        cases_ext(
                            mgr,
                            ps@,
                            |z: Asg|
                                arith_out(
                                    Arith::Div,
                                    sem(a.model(), leaves_at(les@, z)),
                                    sem(b.model(), leaves_at(les@, z)),
                                ),
                            o,
                        );
                    }
                    Ok(Enc::P(ps))
                },
            }
        },
        FExpr::IDiv(a, b) => {
            match enc_arith(mgr, les, a, b, Arith::IDiv, Ghost(ts), Ghost(*e)) {
                Err(x) => Err(x),
                Ok(ps) => {
                    proof {
                        cases_ext(
                            mgr,
                            ps@,
                            |z: Asg|
                                arith_out(
                                    Arith::IDiv,
                                    sem(a.model(), leaves_at(les@, z)),
                                    sem(b.model(), leaves_at(les@, z)),
                                ),
                            o,
                        );
                    }
                    Ok(Enc::P(ps))
                },
            }
        },
        FExpr::Mod(a, b) => {
            match enc_arith(mgr, les, a, b, Arith::Mod, Ghost(ts), Ghost(*e)) {
                Err(x) => Err(x),
                Ok(ps) => {
                    proof {
                        cases_ext(
                            mgr,
                            ps@,
                            |z: Asg|
                                arith_out(
                                    Arith::Mod,
                                    sem(a.model(), leaves_at(les@, z)),
                                    sem(b.model(), leaves_at(les@, z)),
                                ),
                            o,
                        );
                    }
                    Ok(Enc::P(ps))
                },
            }
        },
    }
}

spec fn neg_out(o: Out) -> Out {
    |a: Asg|
        match number(o(a)) {
            Some(x) => Some(Val::Num(x.neg())),
            None => None,
        }
}

/// The cases of a negated number.
fn negate_cases(
    mgr: &mut Mgr,
    ps: &Vec<(Value, NodeId)>,
    Ghost(o): Ghost<Out>,
) -> (r: Option<Vec<(Value, NodeId)>>)
    requires
        old(mgr).wf(),
        cases_ok(old(mgr), ps@, o),
    ensures
        final(mgr).wf(),
        final(mgr).keeps(old(mgr)),
        match r {
            Some(qs) => cases_ok(final(mgr), qs@, neg_out(o)) && sorted(qs@, Sort::N),
            None => !sorted(ps@, Sort::N),
        },
{
    let mut out: Vec<(Value, NodeId)> = Vec::new();
    let mut i: usize = 0;
    while i < ps.len()
        invariant
            i <= ps@.len(),
            out@.len() == i,
            *mgr == *old(mgr),
            mgr.wf(),
            cases_ok(mgr, ps@, o),
            forall|k: int|
                0 <= k < i ==> (#[trigger] out@[k]).1 == ps@[k].1 && ps@[k].0.model() is Num
                    && out@[k].0.model() == Val::Num(ps@[k].0.model()->Num_0.neg()),
        decreases ps.len() - i,
    {
        match &ps[i].0 {
            Value::Num(x) => {
                let c = ps[i].1;
                out.push((Value::Num(x.negated()), c));
            },
            _ => {
                assert(val_sort(ps@[i as int].0.model()) != Sort::N);
                return None;
            },
        }
        i += 1;
    }
    proof {
        let p = neg_out(o);
        assert forall|k: int| 0 <= k < out@.len() implies mgr.valid((#[trigger] out@[k]).1) by {
            assert(mgr.valid(ps@[k].1));
        }
        assert forall|a: Asg, v: Val| #[trigger] hit(mgr, out@, a, v) == (p(a) == Some(v)) by {
            if hit(mgr, out@, a, v) {
                let k = choose|k: int|
                    0 <= k < out@.len() && (#[trigger] out@[k]).0.model() == v && mgr.eval(
                        out@[k].1,
                        a,
                    );
                assert(hit(mgr, ps@, a, ps@[k].0.model()));
            }
            if p(a) == Some(v) {
                assert(hit(mgr, ps@, a, o(a)->0));
                let k = choose|k: int|
                    0 <= k < ps@.len() && (#[trigger] ps@[k]).0.model() == o(a)->0 && mgr.eval(
                        ps@[k].1,
                        a,
                    );
                assert(out@[k].0.model() == v);
            }
        }
    }
    Some(out)
}

/// Adds cases under a condition.
fn guard_cases(
    mgr: &mut Mgr,
    out: &mut Vec<(Value, NodeId)>,
    ps: &Vec<(Value, NodeId)>,
    c: NodeId,
)
    requires
        old(mgr).wf(),
        old(mgr).valid(c),
        all_valid(old(mgr), old(out)@),
        all_valid(old(mgr), ps@),
    ensures
        final(mgr).wf(),
        final(mgr).keeps(old(mgr)),
        all_valid(final(mgr), final(out)@),
        forall|a: Asg, v: Val| #[trigger]
            hit(final(mgr), final(out)@, a, v) == (hit(old(mgr), old(out)@, a, v) || (old(mgr).eval(
                c,
                a,
            ) && hit(old(mgr), ps@, a, v))),
        forall|s: Sort|
            sorted(old(out)@, s) && sorted(ps@, s) ==> #[trigger] sorted(final(out)@, s),
{
    let mut i: usize = 0;
    assert(ps@.take(0) =~= Seq::empty());
    while i < ps.len()
        invariant
            i <= ps@.len(),
            mgr.wf(),
            mgr.keeps(old(mgr)),
            old(mgr).valid(c),
            all_valid(mgr, out@),
            all_valid(old(mgr), ps@),
            forall|a: Asg, v: Val| #[trigger]
                hit(mgr, out@, a, v) == (hit(old(mgr), old(out)@, a, v) || (old(mgr).eval(c, a) && hit(
                    old(mgr),
                    ps@.take(i as int),
                    a,
                    v,
                ))),
            forall|s: Sort| sorted(old(out)@, s) && sorted(ps@, s) ==> #[trigger] sorted(out@, s),
        decreases ps.len() - i,
    {
        let ghost m0 = *mgr;
        let ghost out0 = out@;
        assert(old(mgr).valid(ps@[i as int].1));
        let ci = ps[i].1;
        let cc = mgr.and(c, ci);
        let ghost m1 = *mgr;
        proof {
            hit_keeps(mgr, &m0, out0);
        }
        let v = ps[i].0.clone();
        push_part(mgr, out, v, cc);
        proof {
            assert forall|a: Asg, w: Val| #[trigger] hit(mgr, out@, a, w) == (hit(
                old(mgr),
                old(out)@,
                a,
                w,
            ) || (old(mgr).eval(c, a) && hit(old(mgr), ps@.take(i + 1), a, w))) by {
                assert(ps@.take(i + 1) =~= ps@.take(i as int).push(ps@[i as int]));
                hit_push(old(mgr), ps@.take(i as int), ps@[i as int], a, w);
                assert(hit(&m1, out0, a, w) == hit(&m0, out0, a, w));
                assert(m1.eval(cc, a) == (m0.eval(c, a) && m0.eval(ci, a)));
                assert(m0.eval(c, a) == old(mgr).eval(c, a));
                assert(m0.eval(ci, a) == old(mgr).eval(ci, a));
            }
            assert forall|s: Sort| sorted(old(out)@, s) && sorted(ps@, s) implies #[trigger] sorted(
                out@,
                s,
            ) by {
                assert(sorted(out0, s));
                assert(val_sort(ps@[i as int].0.model()) == s);
            }
        }
        i += 1;
    }
    assert(ps@.take(i as int) =~= ps@);
}

/// An expression as a condition.
fn enc_bool(
    mgr: &mut Mgr,
    les: &Vec<LeafEnc>,
    e: &FExpr,
    Ghost(ts): Ghost<Seq<LT>>,
) -> (r: Result<NodeId, EngineError>)
    requires
        old(mgr).wf(),
        leaves_ok(les@),
        encodes(les@, ts),
    ensures
        final(mgr).wf(),
        final(mgr).keeps(old(mgr)),
        match r {
            Ok(n) => final(mgr).valid(n) && forall|a: Asg| #[trigger]
                final(mgr).eval(n, a) == holds(sem(e.model(), leaves_at(les@, a))),
            Err(x) => x is Eval && !is_condition(e.model(), ts),
        },
    decreases e, 4nat,
{
    let ghost o = out_of(e.model(), les@);
    match enc(mgr, les, e, Ghost(ts)) {
        Err(x) => Err(x),
        Ok(Enc::B(n)) => {
            assert forall|a: Asg| #[trigger] mgr.eval(n, a) == holds(
                sem(e.model(), leaves_at(les@, a)),
            ) by {
                assert(mgr.eval(n, a) == holds(o(a)));
            }
            Ok(n)
        },
        Ok(Enc::P(ps)) => {
            let ghost m0 = *mgr;
            let mut r = F;
            proof {
                mgr.constants_meaning();
            }
            let mut i: usize = 0;
            assert(ps@.take(0) =~= Seq::empty());
            while i < ps.len()
                invariant
                    i <= ps@.len(),
                    mgr.wf(),
                    mgr.keeps(&m0),
                    mgr.keeps(old(mgr)),
                    all_valid(&m0, ps@),
                    mgr.valid(r),
                    typed(e.model(), ts) matches Some(s) ==> sorted(ps@, s),
                    forall|a: Asg| #[trigger]
                        mgr.eval(r, a) == hit(&m0, ps@.take(i as int), a, Val::Bool(true)),
                decreases ps.len() - i,
            {
                let ghost m1 = *mgr;
                let ghost r0 = r;
                assert(m0.valid(ps@[i as int].1));
                match &ps[i].0 {
                    Value::Bool(b) => {
                        if *b {
                            r = mgr.or(r, ps[i].1);
                        }
                    },
                    _ => {
                        assert(val_sort(ps@[i as int].0.model()) != Sort::B);
                        return Err(bad("boolean expression expected"));
                    },
                }
                proof {
                    assert forall|a: Asg| #[trigger] mgr.eval(r, a) == hit(
                        &m0,
                        ps@.take(i + 1),
                        a,
                        Val::Bool(true),
                    ) by {
                        assert(ps@.take(i + 1) =~= ps@.take(i as int).push(ps@[i as int]));
                        hit_push(&m0, ps@.take(i as int), ps@[i as int], a, Val::Bool(true));
                        assert(m1.eval(r0, a) == hit(
                            &m0,
                            ps@.take(i as int),
                            a,
                            Val::Bool(true),
                        ));
                        assert(m1.eval(ps@[i as int].1, a) == m0.eval(ps@[i as int].1, a));
                    }
                }
                i += 1;
            }
            assert(ps@.take(i as int) =~= ps@);
            assert forall|a: Asg| #[trigger] mgr.eval(r, a) == holds(
                sem(e.model(), leaves_at(les@, a)),
            ) by {
                assert(hit(&m0, ps@, a, Val::Bool(true)) == (o(a) == Some(Val::Bool(true))));
            }
            Ok(r)
        },
    }
}

/// A node that depends on variables below `w` only.
spec fn low(m: &Mgr, n: NodeId, w: u32) -> bool {
    m.valid(n) && m.depends_on(n, below(w))
}

/// All leaves are encoded below `w`.
spec fn leaves_below(es: Seq<LeafEnc>, w: u32) -> bool {
    forall|l: int| 0 <= l < es.len() ==> (#[trigger] es[l]).base + 2 * es[l].bits <= w
}

proof fn code_same(a: Asg, b: Asg, v: int, n: nat)
    requires
        0 <= v,
        v + 2 * n < 0x1_0000_0000,
        forall|k: int| 0 <= k < n ==> a((v + 2 * k) as u32) == #[trigger] b((v + 2 * k) as u32),
    ensures
        code(a, v, n) == code(b, v, n),
    decreases n,
{
    if n > 0 {
        assert(a((v + 2 * 0) as u32) == b((v + 2 * 0) as u32));
        assert forall|k: int| 0 <= k < n - 1 implies a((v + 2 + 2 * k) as u32) == #[trigger] b(
            (v + 2 + 2 * k) as u32,
        ) by {
            assert(a((v + 2 * (k + 1)) as u32) == b((v + 2 * (k + 1)) as u32));
        }
        code_same(a, b, v + 2, (n - 1) as nat);
    }
}

/// A leaf depends on the variables below `w`.
proof fn leaf_same(e: LeafEnc, w: u32, a: Asg, b: Asg, p: bool)
    requires
        leaf_ok(e),
        e.base + 2 * e.bits <= w,
        forall|v: u32| #[trigger] below(w)(v) ==> a(v) == b(v),
    ensures
        leaf_out(e, p, a) == leaf_out(e, p, b),
{
    let v = e.base + if p {
        1int
    } else {
        0int
    };
    assert forall|k: int| 0 <= k < e.bits implies a((v + 2 * k) as u32) == #[trigger] b(
        (v + 2 * k) as u32,
    ) by {
        assert(below(w)((v + 2 * k) as u32));
    }
    code_same(a, b, v, e.bits as nat);
}

/// The leaves depend on the variables below `w`.
proof fn leaves_same(es: Seq<LeafEnc>, w: u32, a: Asg, b: Asg)
    requires
        leaves_ok(es),
        leaves_below(es, w),
        forall|v: u32| #[trigger] below(w)(v) ==> a(v) == b(v),
    ensures
        leaves_at(es, a) == leaves_at(es, b),
{
    assert forall|l: LeafId, p: bool| leaves_at(es, a)(l, p) == #[trigger] leaves_at(es, b)(l, p) by {
        if (l as int) < es.len() {
            assert(leaf_ok(es[l as int]));
            leaf_same(es[l as int], w, a, b, p);
        }
    }
    assert(leaves_at(es, a) =~= leaves_at(es, b));
}

/// The current values depend on the bits of the current state.
proof fn leaves_same_now(es: Seq<LeafEnc>, w: u32, a: Asg, b: Asg, l: LeafId)
    requires
        leaves_ok(es),
        leaves_below(es, w),
        alike(a, b, w),
    ensures
        leaves_at(es, a)(l, false) == leaves_at(es, b)(l, false),
{
    if (l as int) < es.len() {
        let e = es[l as int];
        assert(leaf_ok(e));
        assert forall|k: int| 0 <= k < e.bits implies a((e.base + 2 * k) as u32) == #[trigger] b(
            (e.base + 2 * k) as u32,
        ) by {
            assert(bits(w)((e.base + 2 * k) as u32));
        }
        code_same(a, b, e.base as int, e.bits as nat);
    }
}

/// A condition's node depends on the leaves' variables.
proof fn cond_low(m: &Mgr, n: NodeId, es: Seq<LeafEnc>, w: u32, f: spec_fn(Leaves) -> bool)
    requires
        leaves_ok(es),
        leaves_below(es, w),
        m.valid(n),
        forall|a: Asg| #[trigger] m.eval(n, a) == f(leaves_at(es, a)),
    ensures
        low(m, n, w),
{
    let q = below(w);
    assert forall|a: Asg, b: Asg| (forall|v: u32| #[trigger] q(v) ==> a(v) == b(v)) implies #[trigger] m.eval(
        n,
        a,
    ) == #[trigger] m.eval(n, b) by {
        leaves_same(es, w, a, b);
    }
}

/// A condition on the current state is a set of states.
proof fn cond_set(m: &Mgr, n: NodeId, es: Seq<LeafEnc>, w: u32, f: spec_fn(Leaves) -> bool)
    requires
        leaves_ok(es),
        leaves_below(es, w),
        m.valid(n),
        forall|a: Asg| #[trigger] m.eval(n, a) == f(leaves_at(es, a)),
        forall|x: Leaves, y: Leaves|
            (forall|l: LeafId| #[trigger] x(l, false) == y(l, false)) ==> #[trigger] f(x)
                == #[trigger] f(y),
    ensures
        is_set(m, n, w),
{
    let q = bits(w);
    assert forall|a: Asg, b: Asg| (forall|v: u32| #[trigger] q(v) ==> a(v) == b(v)) implies #[trigger] m.eval(
        n,
        a,
    ) == #[trigger] m.eval(n, b) by {
        let x = leaves_at(es, a);
        let y = leaves_at(es, b);
        assert forall|l: LeafId| #[trigger] x(l, false) == y(l, false) by {
            leaves_same_now(es, w, a, b, l);
        }
        assert(f(x) == f(y));
    }
}

/// Every leaf has a value.
spec fn dom(es: Seq<LeafEnc>, primed: bool, a: Asg) -> bool {
    forall|l: int| 0 <= l < es.len() ==> leaf_out(#[trigger] es[l], primed, a) is Some
}

/// The state that an assignment encodes.
spec fn st(es: Seq<LeafEnc>, a: Asg) -> State {
    Seq::new(es.len(), |l: int| leaf_out(es[l], false, a)->0)
}

/// Primed leaves of a joint assignment are the leaves of the second.
proof fn code_join(x: Asg, y: Asg, v: int, n: nat)
    requires
        0 <= v,
        v % 2 == 0,
        v + 2 * n < 0xffff_ffff,
    ensures
        code(join(x, y), v, n) == code(x, v, n),
        code(join(x, y), v + 1, n) == code(y, v, n),
    decreases n,
{
    if n > 0 {
        code_join(x, y, v + 2, (n - 1) as nat);
        assert(join(x, y)(v as u32) == x(v as u32));
        assert(join(x, y)((v + 1) as u32) == y(v as u32));
    }
}

proof fn join_leaves(es: Seq<LeafEnc>, x: Asg, y: Asg)
    requires
        leaves_ok(es),
    ensures
        forall|l: int|
            0 <= l < es.len() ==> leaf_out(#[trigger] es[l], false, join(x, y)) == leaf_out(
                es[l],
                false,
                x,
            ) && leaf_out(es[l], true, join(x, y)) == leaf_out(es[l], false, y),
        dom(es, false, join(x, y)) == dom(es, false, x),
        dom(es, true, join(x, y)) == dom(es, false, y),
        dom(es, false, x) && dom(es, false, y) ==> leaves_at(es, join(x, y)) == step_leaves(
            st(es, x),
            st(es, y),
        ),
{
    let a = join(x, y);
    assert forall|l: int| 0 <= l < es.len() implies leaf_out(#[trigger] es[l], false, a) == leaf_out(
        es[l],
        false,
        x,
    ) && leaf_out(es[l], true, a) == leaf_out(es[l], false, y) by {
        assert(leaf_ok(es[l]));
        code_join(x, y, es[l].base as int, es[l].bits as nat);
    }
    if dom(es, false, x) {
        assert forall|l: int| 0 <= l < es.len() implies leaf_out(#[trigger] es[l], false, a) is Some by {}
    }
    if dom(es, false, a) {
        assert forall|l: int| 0 <= l < es.len() implies leaf_out(#[trigger] es[l], false, x) is Some by {
            assert(leaf_out(es[l], false, a) is Some);
        }
    }
    if dom(es, false, y) {
        assert forall|l: int| 0 <= l < es.len() implies leaf_out(#[trigger] es[l], true, a) is Some by {
            assert(leaf_out(es[l], false, y) is Some);
        }
    }
    if dom(es, true, a) {
        assert forall|l: int| 0 <= l < es.len() implies leaf_out(#[trigger] es[l], false, y) is Some by {
            assert(leaf_out(es[l], true, a) is Some);
        }
    }
    if dom(es, false, x) && dom(es, false, y) {
        assert forall|l: LeafId, p: bool| leaves_at(es, a)(l, p) == #[trigger] step_leaves(
            st(es, x),
            st(es, y),
        )(l, p) by {
            if (l as int) < es.len() {
                assert(leaf_out(es[l as int], false, x) is Some);
                assert(leaf_out(es[l as int], false, y) is Some);
            }
        }
        assert(leaves_at(es, a) =~= step_leaves(st(es, x), st(es, y)));
    }
}

/// The current leaves of an assignment are those of its state.
proof fn now_leaves(es: Seq<LeafEnc>, a: Asg, l: LeafId)
    requires
        dom(es, false, a),
    ensures
        leaves_at(es, a)(l, false) == state_leaves(st(es, a))(l, false),
{
    if (l as int) < es.len() {
        assert(leaf_out(es[l as int], false, a) is Some);
    }
}

/// An encoded state is a state.
proof fn st_is_state(es: Seq<LeafEnc>, sys: Sys, a: Asg)
    requires
        encodes(es, sys.leaves),
        dom(es, false, a),
    ensures
        sys.is_state(st(es, a)),
{
    let s = st(es, a);
    assert forall|l: int| 0 <= l < s.len() implies leaf_values(sys.leaves[l]) is Some && leaf_values(
        sys.leaves[l],
    )->0.contains(#[trigger] s[l]) by {
        let e = es[l];
        assert(leaf_out(e, false, a) is Some);
        let c = code(a, e.base + 0int, e.bits as nat) as int;
        assert(leaf_values(sys.leaves[l]) == Some(models(e.values@)));
        assert(models(e.values@).len() == e.values@.len());
        assert(models(e.values@)[c] == s[l]);
    }
}

/// The bit number `b` of `i`.
spec fn bit(i: nat, b: nat) -> bool
    decreases b,
{
    if b == 0 {
        i % 2 == 1
    } else {
        bit(i / 2, (b - 1) as nat)
    }
}

proof fn code_of_bits(a: Asg, v: int, n: nat, i: nat)
    requires
        0 <= v,
        v + 2 * n < 0x1_0000_0000,
        i < p2(n),
        forall|k: int| 0 <= k < n ==> #[trigger] a((v + 2 * k) as u32) == bit(i, k as nat),
    ensures
        code(a, v, n) == i,
    decreases n,
{
    if n > 0 {
        assert(a((v + 2 * 0) as u32) == bit(i, 0));
        assert forall|k: int| 0 <= k < n - 1 implies #[trigger] a((v + 2 + 2 * k) as u32) == bit(
            i / 2,
            k as nat,
        ) by {
            assert(a((v + 2 * (k + 1)) as u32) == bit(i, (k + 1) as nat));
        }
        code_of_bits(a, v + 2, (n - 1) as nat, i / 2);
    }
}

spec fn value_index(e: LeafEnc, v: Val) -> int {
    choose|i: int| 0 <= i < e.values@.len() && (#[trigger] e.values@[i]).model() == v
}

spec fn leaf_of_var(es: Seq<LeafEnc>, v: u32) -> int {
    choose|l: int| 0 <= l < es.len() && (#[trigger] es[l]).base <= v < es[l].base + 2 * es[l].bits
}

/// An assignment that encodes the state.
spec fn asg_of_state(es: Seq<LeafEnc>, s: State) -> Asg {
    |v: u32|
        {
            let l = leaf_of_var(es, v);
            bit(value_index(es[l], s[l]) as nat, ((v - es[l].base) / 2) as nat)
        }
}

proof fn state_encoded(es: Seq<LeafEnc>, sys: Sys, s: State)
    requires
        leaves_ok(es),
        encodes(es, sys.leaves),
        sys.is_state(s),
    ensures
        dom(es, false, asg_of_state(es, s)),
        st(es, asg_of_state(es, s)) == s,
{
    let a = asg_of_state(es, s);
    assert forall|l: int| 0 <= l < es.len() implies leaf_out(#[trigger] es[l], false, a) == Some(s[l]) by {
        let e = es[l];
        assert(leaf_ok(e));
        assert(leaf_values(sys.leaves[l]) == Some(models(e.values@)));
        assert(models(e.values@).contains(s[l]));
        let j = choose|j: int| 0 <= j < models(e.values@).len() && models(e.values@)[j] == s[l];
        assert(e.values@[j].model() == s[l]);
        let i = value_index(e, s[l]);
        assert(0 <= i < e.values@.len() && e.values@[i].model() == s[l]);
        assert forall|k: int| 0 <= k < e.bits implies #[trigger] a((e.base + 2 * k) as u32) == bit(
            i as nat,
            k as nat,
        ) by {
            let v = (e.base + 2 * k) as u32;
            assert(es[l].base <= v < es[l].base + 2 * es[l].bits);
            let m = leaf_of_var(es, v);
            assert(0 <= m < es.len() && es[m].base <= v < es[m].base + 2 * es[m].bits);
            if m != l {
                assert(apart(es[l], es[m]));
            }
        }
        code_of_bits(a, e.base as int, e.bits as nat, i as nat);
    }
    assert(st(es, a) =~= s);
}

/// A symbolic engine for a transition system.
pub struct Symbolic<'m> {
    /// The transition system.
    pub flat: &'m FlatModule,
    /// The diagrams.
    pub mgr: Mgr,
    leaves: Vec<LeafEnc>,
    width: u32,
    domain: NodeId,
    /// The initial states.
    pub init: NodeId,
    /// The transition relation, as parts of which one has to hold.
    pub parts: Vec<NodeId>,
    /// For each command its label and its relation.
    pub cmd_relations: Vec<(String, NodeId)>,
}

/// The least number of bits, at least one, with which `card` codes can be told apart.
pub open spec fn bits_needed(card: nat) -> nat
    decreases card,
{
    if card <= 2 {
        1
    } else {
        1 + bits_needed(((card + 1) / 2) as nat)
    }
}

pub proof fn bits_enough(card: nat, n: nat)
    requires
        card <= p2(n),
        n >= 1,
    ensures
        card <= p2(bits_needed(card)),
        1 <= bits_needed(card) <= n,
    decreases card,
{
    assert(p2(1) == 2) by {
        reveal_with_fuel(p2, 2);
    }
    if card > 2 {
        assert(n >= 2);
        bits_enough(((card + 1) / 2) as nat, (n - 1) as nat);
    }
}

pub proof fn p2_64()
    ensures
        p2(64) == 0x1_0000_0000_0000_0000,
{
    reveal_with_fuel(p2, 65);
}

/// The number of bits for `card` codes.
pub fn bits_for(card: usize) -> (b: u32)
    ensures
        b == bits_needed(card as nat),
        1 <= b <= 64,
        card <= p2(b as nat),
{
    proof {
        p2_64();
        bits_enough(card as nat, 64);
    }
    let mut b: u32 = 1;
    let mut n: usize = card;
    while n > 2
        invariant
            1 <= b,
            b - 1 + bits_needed(n as nat) == bits_needed(card as nat),
            bits_needed(card as nat) <= 64,
        decreases n,
    {
        proof {
            assert(bits_needed(n as nat) == 1 + bits_needed(((n + 1) / 2) as nat));
            bits_positive(((n + 1) / 2) as nat);
        }
        n = n / 2 + n % 2;
        b += 1;
    }
    b
}

proof fn bits_positive(n: nat)
    ensures
        bits_needed(n) >= 1,
    decreases n,
{
    if n > 2 {
        bits_positive(((n + 1) / 2) as nat);
    }
}

/// The number of variables that the first `n` leaves take.
pub open spec fn width_of(ts: Seq<LT>, n: nat) -> nat
    decreases n,
{
    if n == 0 {
        0
    } else {
        width_of(ts, (n - 1) as nat) + 2 * bits_needed(leaf_values(ts[n - 1])->0.len())
    }
}

spec fn placed_width(bs: Seq<u32>, m: Seq<bool>, n: nat) -> nat
    decreases n,
{
    if n == 0 {
        0
    } else {
        placed_width(bs, m, (n - 1) as nat) + if m[n - 1] {
            2 * bs[n - 1] as nat
        } else {
            0nat
        }
    }
}

proof fn placed_update(bs: Seq<u32>, m: Seq<bool>, n: nat, l: int)
    requires
        0 <= l < m.len(),
        n <= m.len(),
        bs.len() == m.len(),
        !m[l],
    ensures
        placed_width(bs, m.update(l, true), n) == placed_width(bs, m, n) + if l < n {
            2 * bs[l] as nat
        } else {
            0nat
        },
    decreases n,
{
    if n > 0 {
        placed_update(bs, m, (n - 1) as nat, l);
    }
}

proof fn placed_bound(bs: Seq<u32>, m: Seq<bool>, ts: Seq<LT>, n: nat)
    requires
        n <= m.len(),
        bs.len() == m.len(),
        ts.len() == m.len(),
        forall|l: int|
            0 <= l < m.len() ==> #[trigger] bs[l] == bits_needed(leaf_values(ts[l])->0.len()),
    ensures
        placed_width(bs, m, n) <= width_of(ts, n),
    decreases n,
{
    if n > 0 {
        placed_bound(bs, m, ts, (n - 1) as nat);
        assert(bs[n - 1] == bits_needed(leaf_values(ts[n - 1])->0.len()));
    }
}

proof fn placed_none(bs: Seq<u32>, m: Seq<bool>, n: nat)
    requires
        n <= m.len(),
        forall|l: int| 0 <= l < m.len() ==> !m[l],
    ensures
        placed_width(bs, m, n) == 0,
    decreases n,
{
    if n > 0 {
        placed_none(bs, m, (n - 1) as nat);
    }
}

proof fn width_mono(ts: Seq<LT>, n: nat, k: nat)
    requires
        n <= k,
    ensures
        width_of(ts, n) <= width_of(ts, k),
    decreases k,
{
    if n < k {
        width_mono(ts, n, (k - 1) as nat);
    }
}

/// Why the leaves cannot be encoded: a type is infinite, or there are too many bits.
pub open spec fn layout_error(ls: Seq<LeafInfo>, x: EngineError) -> bool {
    let ts = leaf_types(ls);
    match x {
        EngineError::InfiniteType(n) => exists|l: int| #[trigger] endless_at(ls, l) && n@ == ls[l].name@,
        EngineError::TooLarge(_) => (forall|l: int|
            0 <= l < ls.len() ==> leaf_values(#[trigger] ts[l]) is Some) && width_of(ts, ls.len())
            >= VAR_LIMIT,
        EngineError::Eval(_) => false,
    }
}

/// The bits of the leaves lie in the given order.
spec fn in_order(es: Seq<LeafEnc>, order: Seq<LeafId>) -> bool {
    forall|i: int, j: int|
        #![trigger order[i], order[j]]
        0 <= i < j < order.len() ==> es[order[i] as int].base + 2 * es[order[i] as int].bits <= es[order[j] as int].base
}

/// Gives each leaf its place: in the given order, the others after.
fn layout(leaves: &Vec<LeafInfo>, order: &Vec<LeafId>) -> (r: Result<(Vec<LeafEnc>, u32), EngineError>)
    ensures
        match r {
            Ok((es, w)) => leaves_ok(es@) && encodes(es@, leaf_types(leaves@)) && leaves_below(es@, w)
                && w % 2 == 0 && w == width_of(leaf_types(leaves@), leaves@.len()) && w < VAR_LIMIT && (is_order(
                order@,
                leaves@.len(),
            ) ==> in_order(es@, order@)),
            Err(x) => layout_error(leaves@, x),
        },
{
    let ghost ts = leaf_types(leaves@);
    let n: usize = leaves.len();
    let mut values: Vec<Vec<Value>> = Vec::new();
    let mut sizes: Vec<u32> = Vec::new();
    let mut total: u32 = 0;
    let mut wide = false;
    let mut i: usize = 0;
    while i < n
        invariant
            i <= n,
            n == leaves@.len(),
            ts == leaf_types(leaves@),
            values@.len() == i,
            sizes@.len() == i,
            forall|k: int| 0 <= k < i ==> leaf_values(#[trigger] ts[k]) == Some(models(values@[k]@)),
            forall|k: int| 0 <= k < i ==> #[trigger] sizes@[k] == bits_needed(values@[k]@.len()),
            forall|k: int|
                0 <= k < i ==> (#[trigger] values@[k])@.len() <= p2(sizes@[k] as nat) && 1
                    <= sizes@[k] <= 64,
            !wide ==> total == width_of(ts, i as nat) && total < VAR_LIMIT && total % 2 == 0,
            wide ==> width_of(ts, i as nat) >= VAR_LIMIT,
        decreases n - i,
    {
        match leaves[i].ty.values() {
            None => {
                assert(endless_at(leaves@, i as int)) by {
                    assert(ts[i as int] == leaves@[i as int].ty@);
                    assert forall|j: int| 0 <= j < i implies leaf_values((#[trigger] leaves@[j]).ty@) is Some by {
                        assert(ts[j] == leaves@[j].ty@);
                    }
                }
                return Err(EngineError::InfiniteType(leaves[i].name.clone()));
            },
            Some(vs) => {
                let b: u32 = bits_for(vs.len());
                assert(ts[i as int] == leaves@[i as int].ty@);
                assert(models(vs@).len() == vs@.len());
                if !wide {
                    if total >= VAR_LIMIT - 2 * b {
                        wide = true;
                    } else {
                        total = total + 2 * b;
                    }
                }
                values.push(vs);
                sizes.push(b);
            },
        }
        i += 1;
    }
    if wide {
        return Err(EngineError::TooLarge(own("too many state bits")));
    }
    let mut bases: Vec<u32> = Vec::new();
    let mut placed: Vec<bool> = Vec::new();
    let mut j: usize = 0;
    while j < n
        invariant
            j <= n,
            bases@.len() == j,
            placed@.len() == j,
            forall|k: int| 0 <= k < j ==> !#[trigger] placed@[k],
        decreases n - j,
    {
        bases.push(0);
        placed.push(false);
        j += 1;
    }
    let mut next: u32 = 0;
    proof {
        placed_none(sizes@, placed@, n as nat);
        assert forall|l: int| 0 <= l < placed@.len() implies #[trigger] sizes@[l] == bits_needed(
            leaf_values(ts[l])->0.len(),
        ) by {
            assert(leaf_values(ts[l]) == Some(models(values@[l]@)));
            assert(models(values@[l]@).len() == values@[l]@.len());
        }
    }
    let m: usize = order.len();
    let mut o: usize = 0;
    let mut rest: usize = 0;
    while o < m || rest < n
        invariant
            o <= m,
            rest <= n,
            m == order@.len(),
            n == ts.len(),
            bases@.len() == n,
            placed@.len() == n,
            sizes@.len() == n,
            total == width_of(ts, n as nat),
            total < VAR_LIMIT,
            next % 2 == 0,
            next == placed_width(sizes@, placed@, n as nat),
            forall|l: int|
                0 <= l < n ==> #[trigger] sizes@[l] == bits_needed(leaf_values(ts[l])->0.len()),
            forall|l: int| 0 <= l < n && o == m && l < rest ==> #[trigger] placed@[l],
            forall|l: int|
                0 <= l < n && #[trigger] placed@[l] ==> bases@[l] % 2 == 0 && bases@[l] + 2 * sizes@[l]
                    <= next,
            forall|l: int, k: int|
                0 <= l < n && 0 <= k < n && l != k && #[trigger] placed@[l] && #[trigger] placed@[k]
                    ==> bases@[l] + 2 * sizes@[l] <= bases@[k] || bases@[k] + 2 * sizes@[k]
                    <= bases@[l],
            o < m ==> rest == 0,
            rest == 0 ==> forall|l: int|
                0 <= l < n && #[trigger] placed@[l] ==> exists|i: int| 0 <= i < o && #[trigger] order@[i] == l,
            is_order(order@, n as nat) ==> forall|i: int| 0 <= i < o ==> placed@[(#[trigger] order@[i]) as int],
            is_order(order@, n as nat) ==> forall|i: int, j: int|
                #![trigger order@[i], order@[j]]
                0 <= i < j < o ==> bases@[order@[i] as int] + 2 * sizes@[order@[i] as int] <= bases@[order@[j] as int],
        decreases m - o, n - rest,
    {
        let ghost o0 = o as int;
        let ghost placed0 = placed@;
        let ghost bases0 = bases@;
        let ghost rest0 = rest as int;
        let l: usize;
        if o < m {
            l = order[o] as usize;
            o += 1;
        } else {
            l = rest;
            rest += 1;
        }
        if l < n && !placed[l] {
            let b: u32 = sizes[l];
            proof {
                placed_update(sizes@, placed@, n as nat, l as int);
                placed_bound(sizes@, placed@.update(l as int, true), ts, n as nat);
            }
            bases.set(l, next);
            placed.set(l, true);
            next = next + 2 * b;
        }
        proof {
            if is_order(order@, n as nat) {
                if o0 < m {
                    if placed0[l as int] {
                        let i = choose|i: int| 0 <= i < o0 && #[trigger] order@[i] == l;
                        assert(order@[i] != order@[o0]);
                    }
                    assert(order@[o0] == l);
                }
                assert forall|i: int| 0 <= i < o implies placed@[(#[trigger] order@[i]) as int] by {
                    if i < o0 {
                        assert(placed0[order@[i] as int]);
                    }
                }
                assert forall|i: int, j: int|
                    #![trigger order@[i], order@[j]]
                    0 <= i < j < o implies bases@[order@[i] as int] + 2 * sizes@[order@[i] as int]
                    <= bases@[order@[j] as int] by {
                    assert(order@[i] != order@[j]);
                    if j < o0 {
                        assert(bases0[order@[i] as int] + 2 * sizes@[order@[i] as int] <= bases0[order@[j] as int]);
                        assert(placed0[order@[i] as int] && placed0[order@[j] as int]);
                    } else {
                        assert(placed0[order@[i] as int]);
                    }
                }
            }
            if rest == 0 {
                assert forall|k: int| 0 <= k < n && #[trigger] placed@[k] implies exists|i: int|
                    0 <= i < o && #[trigger] order@[i] == k by {
                    if placed0[k] {
                        let i = choose|i: int| 0 <= i < o0 && #[trigger] order@[i] == k;
                        assert(0 <= i < o && order@[i] == k);
                    } else {
                        assert(order@[o0] == k);
                    }
                }
            }
        }
    }
    let mut es: Vec<LeafEnc> = Vec::new();
    let mut k: usize = 0;
    while k < n
        invariant
            k <= n,
            n == leaves@.len(),
            ts == leaf_types(leaves@),
            bases@.len() == n,
            sizes@.len() == n,
            values@.len() == n,
            es@.len() == k,
            forall|l: int|
                0 <= l < k ==> (#[trigger] es@[l]).base == bases@[l] && es@[l].bits == sizes@[l]
                    && models(es@[l].values@) == models(values@[l]@) && es@[l].is_bool == (
                ts[l] is Bool),
        decreases n - k,
    {
        let is_bool = match &leaves[k].ty {
            LeafType::Bool => true,
            _ => false,
        };
        assert(ts[k as int] == leaves@[k as int].ty@);
        es.push(
            LeafEnc {
                base: bases[k],
                bits: sizes[k],
                is_bool,
                values: crate::value::clone_values(&values[k]),
            },
        );
        k += 1;
    }
    proof {
        placed_bound(sizes@, placed@, ts, n as nat);
        assert forall|l: int| 0 <= l < n implies #[trigger] placed@[l] by {}
        assert forall|l: int| 0 <= l < es@.len() implies leaf_ok(#[trigger] es@[l]) by {
            assert(placed@[l]);
            assert(values@[l]@.len() <= p2(sizes@[l] as nat));
            assert(models(es@[l].values@).len() == es@[l].values@.len());
            assert(models(values@[l]@).len() == values@[l]@.len());
            assert(leaf_values(ts[l]) == Some(models(values@[l]@)));
            if ts[l] is Bool {
                assert(leaf_values(ts[l])->0 =~= seq![Val::Bool(false), Val::Bool(true)]);
                assert(bits_needed(2) == 1);
            }
        }
        assert forall|l: int, q: int| 0 <= l < es@.len() && 0 <= q < es@.len() && l != q implies apart(
            #[trigger] es@[l],
            #[trigger] es@[q],
        ) by {
            assert(placed@[l] && placed@[q]);
        }
        assert forall|l: int| 0 <= l < es@.len() implies leaf_values(#[trigger] ts[l]) == Some(
            models(es@[l].values@),
        ) && es@[l].is_bool == (ts[l] is Bool) by {
            assert(leaf_values(ts[l]) == Some(models(values@[l]@)));
            assert(es@[l].base == bases@[l]);
        }
        assert forall|l: int| 0 <= l < es@.len() implies (#[trigger] es@[l]).base + 2 * es@[l].bits
            <= total by {
            assert(placed@[l]);
        }
        width_even(ts, n as nat);
        if is_order(order@, n as nat) {
            assert forall|i: int, j: int|
                #![trigger order@[i], order@[j]]
                0 <= i < j < order@.len() implies es@[order@[i] as int].base + 2 * es@[order@[i] as int].bits
                <= es@[order@[j] as int].base by {
                assert(order@[i] < n && order@[j] < n);
                assert(es@[order@[i] as int].base == bases@[order@[i] as int]);
                assert(es@[order@[j] as int].base == bases@[order@[j] as int]);
            }
        }
    }
    Ok((es, total))
}

proof fn width_even(ts: Seq<LT>, n: nat)
    ensures
        width_of(ts, n) % 2 == 0,
    decreases n,
{
    if n > 0 {
        width_even(ts, (n - 1) as nat);
    }
}

proof fn low_keeps(m: &Mgr, old: &Mgr, n: NodeId, w: u32)
    requires
        m.keeps_values(old),
        low(old, n, w),
    ensures
        low(m, n, w),
{
    let q = below(w);
    assert forall|a: Asg, b: Asg| (forall|v: u32| #[trigger] q(v) ==> a(v) == b(v)) implies #[trigger] m.eval(
        n,
        a,
    ) == #[trigger] m.eval(n, b) by {
        assert(old.eval(n, a) == old.eval(n, b));
    }
}

proof fn and_low(m: &Mgr, old: &Mgr, x: NodeId, y: NodeId, n: NodeId, w: u32)
    requires
        low(old, x, w),
        low(old, y, w),
        m.valid(n),
        forall|a: Asg| #[trigger] m.eval(n, a) == (old.eval(x, a) && old.eval(y, a)),
    ensures
        low(m, n, w),
{
    let q = below(w);
    assert forall|a: Asg, b: Asg| (forall|v: u32| #[trigger] q(v) ==> a(v) == b(v)) implies #[trigger] m.eval(
        n,
        a,
    ) == #[trigger] m.eval(n, b) by {
        assert(old.eval(x, a) == old.eval(x, b));
        assert(old.eval(y, a) == old.eval(y, b));
    }
}

spec fn env_holds(e: FE) -> spec_fn(Leaves) -> bool {
    |x: Leaves| holds(sem(e, x))
}

/// The condition of one command: guard and constraint.
fn enc_cmd(mgr: &mut Mgr, les: &Vec<LeafEnc>, c: &FlatCmd, Ghost(ts): Ghost<Seq<LT>>) -> (r: Result<
    NodeId,
    EngineError,
>)
    requires
        old(mgr).wf(),
        leaves_ok(les@),
        encodes(les@, ts),
    ensures
        final(mgr).wf(),
        final(mgr).keeps(old(mgr)),
        match r {
            Ok(n) => final(mgr).valid(n) && forall|a: Asg| #[trigger]
                final(mgr).eval(n, a) == (holds(sem(c.model().guard, leaves_at(les@, a))) && holds(
                    sem(c.model().constraint, leaves_at(les@, a)),
                )),
            Err(x) => x is Eval && !(is_condition(c.model().guard, ts) && is_condition(
                c.model().constraint,
                ts,
            )),
        },
{
    let g = match enc_bool(mgr, les, &c.guard, Ghost(ts)) {
        Ok(n) => n,
        Err(x) => {
            return Err(x);
        },
    };
    let ghost m1 = *mgr;
    let k = match enc_bool(mgr, les, &c.constraint, Ghost(ts)) {
        Ok(n) => n,
        Err(x) => {
            return Err(x);
        },
    };
    let ghost m2 = *mgr;
    let r = mgr.and(g, k);
    assert forall|a: Asg| #[trigger] mgr.eval(r, a) == (holds(
        sem(c.model().guard, leaves_at(les@, a)),
    ) && holds(sem(c.model().constraint, leaves_at(les@, a)))) by {
        assert(m2.eval(g, a) == m1.eval(g, a));
    }
    Ok(r)
}

/// The relations found so far are valid.
spec fn labels_ok(m: &Mgr, ls: Seq<(String, NodeId)>) -> bool {
    forall|i: int| 0 <= i < ls.len() ==> m.valid((#[trigger] ls[i]).1)
}

proof fn labels_keep(m: &Mgr, old: &Mgr, ls: Seq<(String, NodeId)>)
    requires
        m.keeps_values(old),
        labels_ok(old, ls),
    ensures
        labels_ok(m, ls),
{
}

fn label_of(c: &FlatCmd) -> (r: String)
    ensures
        match c.label {
            Some(s) => r@ == s@,
            None => r@ == ""@,
        },
{
    match &c.label {
        Some(s) => s.clone(),
        None => own(""),
    }
}

/// Where one of the commands can run.
fn enc_cmds(
    mgr: &mut Mgr,
    les: &Vec<LeafEnc>,
    cs: &Vec<FlatCmd>,
    labels: &mut Vec<(String, NodeId)>,
    Ghost(ts): Ghost<Seq<LT>>,
) -> (r: Result<NodeId, EngineError>)
    requires
        old(mgr).wf(),
        leaves_ok(les@),
        encodes(les@, ts),
        labels_ok(old(mgr), old(labels)@),
    ensures
        final(mgr).wf(),
        final(mgr).keeps(old(mgr)),
        labels_ok(final(mgr), final(labels)@),
        match r {
            Ok(n) => final(mgr).valid(n) && forall|a: Asg| #[trigger]
                final(mgr).eval(n, a) == some_cmd(cmd_models(cs@), leaves_at(les@, a)),
            Err(x) => x is Eval && !cmds_typed(cmd_models(cs@), ts),
        },
{
    let ghost ms = cmd_models(cs@);
    proof {
        mgr.constants_meaning();
    }
    let mut r = F;
    let mut i: usize = 0;
    while i < cs.len()
        invariant
            i <= cs@.len(),
            ms == cmd_models(cs@),
            mgr.wf(),
            mgr.keeps(old(mgr)),
            leaves_ok(les@),
            encodes(les@, ts),
            labels_ok(mgr, labels@),
            mgr.valid(r),
            forall|a: Asg| #[trigger]
                mgr.eval(r, a) == some_cmd(ms.take(i as int), leaves_at(les@, a)),
        decreases cs.len() - i,
    {
        let ghost m0 = *mgr;
        let ghost r0 = r;
        let gc = match enc_cmd(mgr, les, &cs[i], Ghost(ts)) {
            Ok(n) => n,
            Err(x) => {
                assert(ms[i as int] == cs@[i as int].model());
                return Err(x);
            },
        };
        let ghost m1 = *mgr;
        let ghost l0 = labels@;
        labels.push((label_of(&cs[i]), gc));
        r = mgr.or(r, gc);
        proof {
            assert forall|k: int| 0 <= k < labels@.len() implies mgr.valid((#[trigger] labels@[k]).1) by {
                if k < l0.len() {
                    assert(m0.valid(l0[k].1));
                }
            }
            assert forall|a: Asg| #[trigger] mgr.eval(r, a) == some_cmd(
                ms.take(i + 1),
                leaves_at(les@, a),
            ) by {
                let env = leaves_at(les@, a);
                assert(m1.eval(r0, a) == m0.eval(r0, a));
                let x = ms.take(i as int);
                let y = ms.take(i + 1);
                assert(y[i as int] == cs@[i as int].model());
                if some_cmd(x, env) {
                    let k = choose|k: int|
                        0 <= k < x.len() && holds(sem((#[trigger] x[k]).guard, env)) && holds(
                            sem(x[k].constraint, env),
                        );
                    assert(y[k] == x[k]);
                }
                if some_cmd(y, env) {
                    let k = choose|k: int|
                        0 <= k < y.len() && holds(sem((#[trigger] y[k]).guard, env)) && holds(
                            sem(y[k].constraint, env),
                        );
                    if k < i {
                        assert(x[k] == y[k]);
                    }
                }
            }
        }
        i += 1;
    }
    assert(ms.take(i as int) =~= ms);
    Ok(r)
}

/// Where the relation allows a step.
fn enc_trans(
    mgr: &mut Mgr,
    les: &Vec<LeafEnc>,
    node: &TransNode,
    labels: &mut Vec<(String, NodeId)>,
    Ghost(ts): Ghost<Seq<LT>>,
) -> (r: Result<NodeId, EngineError>)
    requires
        old(mgr).wf(),
        leaves_ok(les@),
        encodes(les@, ts),
        labels_ok(old(mgr), old(labels)@),
    ensures
        final(mgr).wf(),
        final(mgr).keeps(old(mgr)),
        labels_ok(final(mgr), final(labels)@),
        match r {
            Ok(n) => final(mgr).valid(n) && forall|a: Asg| #[trigger]
                final(mgr).eval(n, a) == allows(node.model(), leaves_at(les@, a)),
            Err(x) => x is Eval && !tn_typed(node.model(), ts),
        },
    decreases node,
{
    proof {
        mgr.constants_meaning();
    }
    match node {
        TransNode::True => Ok(T),
        TransNode::Cmds(cs) => enc_cmds(mgr, les, cs, labels, Ghost(ts)),
        TransNode::All(ns) => {
            let ghost ms = tn_models(ns@);
            let mut r = T;
            let mut i: usize = 0;
            while i < ns.len()
                invariant
                    i <= ns@.len(),
                    decreases_to!(node => ns),
                    ms == tn_models(ns@),
                    node.model() == TN::All(ms),
                    mgr.wf(),
                    mgr.keeps(old(mgr)),
                    leaves_ok(les@),
                    encodes(les@, ts),
                    labels_ok(mgr, labels@),
                    mgr.valid(r),
                    forall|a: Asg| #[trigger]
                        mgr.eval(r, a) == every(allowed(ms.take(i as int), leaves_at(les@, a))),
                decreases ns.len() - i,
            {
                let ghost m0 = *mgr;
                let ghost r0 = r;
                let n = match enc_trans(mgr, les, &ns[i], labels, Ghost(ts)) {
                    Ok(n) => n,
                    Err(x) => {
                        assert(!tns_typed(ms, ts)[i as int]);
                        return Err(x);
                    },
                };
                let ghost m1 = *mgr;
                r = mgr.and(r, n);
                proof {
                    labels_keep(mgr, &m1, labels@);
                    assert forall|a: Asg| #[trigger] mgr.eval(r, a) == every(
                        allowed(ms.take(i + 1), leaves_at(les@, a)),
                    ) by {
                        let env = leaves_at(les@, a);
                        assert(m1.eval(r0, a) == m0.eval(r0, a));
                        let x = allowed(ms.take(i as int), env);
                        let y = allowed(ms.take(i + 1), env);
                        assert(y =~= x.push(allows(ms[i as int], env)));
                        if every(y) {
                            assert(y[i as int]);
                            assert forall|k: int| 0 <= k < x.len() implies #[trigger] x[k] by {
                                assert(y[k] == x[k]);
                            }
                        }
                    }
                }
                i += 1;
            }
            assert(ms.take(i as int) =~= ms);
            Ok(r)
        },
        TransNode::Interleave(bs) => {
            let ghost ms = branch_models(bs@);
            let mut r = F;
            let mut i: usize = 0;
            while i < bs.len()
                invariant
                    i <= bs@.len(),
                    decreases_to!(node => bs),
                    ms == branch_models(bs@),
                    node.model() == TN::Interleave(ms),
                    mgr.wf(),
                    mgr.keeps(old(mgr)),
                    leaves_ok(les@),
                    encodes(les@, ts),
                    labels_ok(mgr, labels@),
                    mgr.valid(r),
                    forall|a: Asg| #[trigger]
                        mgr.eval(r, a) == some(
                            branches_allowed(ms.take(i as int), leaves_at(les@, a)),
                        ),
                decreases bs.len() - i,
            {
                let ghost m0 = *mgr;
                let ghost r0 = r;
                let n = match enc_trans(mgr, les, &bs[i].0, labels, Ghost(ts)) {
                    Ok(n) => n,
                    Err(x) => {
                        assert(!branches_typed(ms, ts)[i as int]);
                        return Err(x);
                    },
                };
                let ghost m1 = *mgr;
                let f = match enc_bool(mgr, les, &bs[i].1, Ghost(ts)) {
                    Ok(n) => n,
                    Err(x) => {
                        proof {
                            labels_keep(mgr, &m1, labels@);
                        }
                        assert(!branches_typed(ms, ts)[i as int]);
                        return Err(x);
                    },
                };
                let ghost m2 = *mgr;
                let ef = mgr.and(n, f);
                let ghost m3 = *mgr;
                r = mgr.or(r, ef);
                proof {
                    labels_keep(mgr, &m1, labels@);
                    assert forall|a: Asg| #[trigger] mgr.eval(r, a) == some(
                        branches_allowed(ms.take(i + 1), leaves_at(les@, a)),
                    ) by {
                        let env = leaves_at(les@, a);
                        assert(m3.eval(r0, a) == m0.eval(r0, a));
                        assert(m2.eval(n, a) == m1.eval(n, a));
                        assert(m3.eval(ef, a) == (m2.eval(n, a) && m2.eval(f, a)));
                        let x = branches_allowed(ms.take(i as int), env);
                        let y = branches_allowed(ms.take(i + 1), env);
                        assert(y =~= x.push(
                            allows(ms[i as int].0, env) && holds(sem(ms[i as int].1, env)),
                        ));
                        if some(x) {
                            let k = choose|k: int| 0 <= k < x.len() && #[trigger] x[k];
                            assert(y[k]);
                        }
                        if m3.eval(ef, a) {
                            assert(y[i as int]);
                        }
                    }
                }
                i += 1;
            }
            assert(ms.take(i as int) =~= ms);
            Ok(r)
        },
    }
}

/// One of the nodes is true.
spec fn any_of(m: &Mgr, ns: Seq<NodeId>, a: Asg) -> bool {
    exists|k: int| 0 <= k < ns.len() && m.eval(#[trigger] ns[k], a)
}

spec fn all_low(m: &Mgr, ns: Seq<NodeId>, w: u32) -> bool {
    forall|k: int| 0 <= k < ns.len() ==> low(m, #[trigger] ns[k], w)
}

proof fn any_keeps(m: &Mgr, old: &Mgr, ns: Seq<NodeId>, w: u32)
    requires
        m.keeps_values(old),
        all_low(old, ns, w),
    ensures
        all_low(m, ns, w),
        forall|a: Asg| #[trigger] any_of(m, ns, a) == any_of(old, ns, a),
{
    assert forall|k: int| 0 <= k < ns.len() implies low(m, #[trigger] ns[k], w) by {
        low_keeps(m, old, ns[k], w);
    }
    assert forall|a: Asg| #[trigger] any_of(m, ns, a) == any_of(old, ns, a) by {
        if any_of(m, ns, a) {
            let k = choose|k: int| 0 <= k < ns.len() && m.eval(#[trigger] ns[k], a);
            assert(low(old, ns[k], w));
            assert(old.eval(ns[k], a));
        }
        if any_of(old, ns, a) {
            let k = choose|k: int| 0 <= k < ns.len() && old.eval(#[trigger] ns[k], a);
            assert(low(old, ns[k], w));
            assert(m.eval(ns[k], a));
        }
    }
}

/// Adds a node to a list of parts, unless it is false everywhere.
fn add_part(mgr: &Mgr, out: &mut Vec<NodeId>, n: NodeId, Ghost(w): Ghost<u32>)
    requires
        mgr.wf(),
        all_low(mgr, old(out)@, w),
        low(mgr, n, w),
    ensures
        all_low(mgr, final(out)@, w),
        forall|a: Asg| #[trigger]
            any_of(mgr, final(out)@, a) == (any_of(mgr, old(out)@, a) || mgr.eval(n, a)),
{
    proof {
        mgr.constants_meaning();
    }
    let ghost o = out@;
    if n != F {
        out.push(n);
        assert forall|a: Asg| #[trigger] any_of(mgr, out@, a) == (any_of(mgr, o, a) || mgr.eval(n, a)) by {
            if any_of(mgr, o, a) {
                let k = choose|k: int| 0 <= k < o.len() && mgr.eval(#[trigger] o[k], a);
                assert(out@[k] == o[k]);
            }
            if mgr.eval(n, a) {
                assert(out@[o.len() as int] == n);
            }
            if any_of(mgr, out@, a) {
                let k = choose|k: int| 0 <= k < out@.len() && mgr.eval(#[trigger] out@[k], a);
                if k < o.len() {
                    assert(o[k] == out@[k]);
                }
            }
        }
    }
}

/// Splits the choices of the relation into parts, each under the condition `pre`.
fn enc_trans_parts(
    mgr: &mut Mgr,
    les: &Vec<LeafEnc>,
    node: &TransNode,
    pre: NodeId,
    out: &mut Vec<NodeId>,
    labels: &mut Vec<(String, NodeId)>,
    Ghost(ts): Ghost<Seq<LT>>,
    Ghost(w): Ghost<u32>,
) -> (r: Result<(), EngineError>)
    requires
        old(mgr).wf(),
        leaves_ok(les@),
        encodes(les@, ts),
        leaves_below(les@, w),
        labels_ok(old(mgr), old(labels)@),
        low(old(mgr), pre, w),
        all_low(old(mgr), old(out)@, w),
    ensures
        final(mgr).wf(),
        final(mgr).keeps(old(mgr)),
        labels_ok(final(mgr), final(labels)@),
        match r {
            Ok(_) => all_low(final(mgr), final(out)@, w) && forall|a: Asg| #[trigger]
                any_of(final(mgr), final(out)@, a) == (any_of(old(mgr), old(out)@, a) || (old(
                    mgr).eval(pre, a) && allows(node.model(), leaves_at(les@, a)))),
            Err(x) => x is Eval && !tn_typed(node.model(), ts),
        },
    decreases node,
{
    match node {
        TransNode::Interleave(bs) => {
            let ghost ms = branch_models(bs@);
            let mut i: usize = 0;
            while i < bs.len()
                invariant
                    i <= bs@.len(),
                    decreases_to!(node => bs),
                    ms == branch_models(bs@),
                    node.model() == TN::Interleave(ms),
                    mgr.wf(),
                    mgr.keeps(old(mgr)),
                    leaves_ok(les@),
                    encodes(les@, ts),
                    leaves_below(les@, w),
                    labels_ok(mgr, labels@),
                    low(old(mgr), pre, w),
                    all_low(mgr, out@, w),
                    forall|a: Asg| #[trigger]
                        any_of(mgr, out@, a) == (any_of(old(mgr), old(out)@, a) || (old(mgr).eval(
                            pre,
                            a,
                        ) && some(branches_allowed(ms.take(i as int), leaves_at(les@, a))))),
                decreases bs.len() - i,
            {
                let ghost m0 = *mgr;
                let ghost out0 = out@;
                let f = match enc_bool(mgr, les, &bs[i].1, Ghost(ts)) {
                    Ok(n) => n,
                    Err(x) => {
                        proof {
                            labels_keep(mgr, &m0, labels@);
                        }
                        assert(!branches_typed(ms, ts)[i as int]);
                        return Err(x);
                    },
                };
                let ghost m1 = *mgr;
                proof {
                    cond_low(mgr, f, les@, w, env_holds(ms[i as int].1));
                    low_keeps(mgr, old(mgr), pre, w);
                }
                let pre2 = mgr.and(pre, f);
                let ghost m2 = *mgr;
                proof {
                    and_low(mgr, &m1, pre, f, pre2, w);
                    labels_keep(mgr, &m0, labels@);
                    any_keeps(mgr, &m0, out0, w);
                }
                if pre2 != F {
                    match enc_trans_parts(
                        mgr,
                        les,
                        &bs[i].0,
                        pre2,
                        out,
                        labels,
                        Ghost(ts),
                        Ghost(w),
                    ) {
                        Ok(_) => {},
                        Err(x) => {
                            assert(!branches_typed(ms, ts)[i as int]);
                            return Err(x);
                        },
                    }
                } else {
                    proof {
                        mgr.constants_meaning();
                    }
                }
                proof {
                    assert forall|a: Asg| #[trigger] any_of(mgr, out@, a) == (any_of(
                        old(mgr),
                        old(out)@,
                        a,
                    ) || (old(mgr).eval(pre, a) && some(
                        branches_allowed(ms.take(i + 1), leaves_at(les@, a)),
                    ))) by {
                        let env = leaves_at(les@, a);
                        assert(any_of(&m2, out0, a) == any_of(&m0, out0, a));
                        assert(m2.eval(pre2, a) == (m1.eval(pre, a) && m1.eval(f, a)));
                        assert(m1.eval(pre, a) == old(mgr).eval(pre, a));
                        assert(any_of(mgr, out@, a) == (any_of(&m2, out0, a) || (m2.eval(pre2, a)
                            && allows(ms[i as int].0, env))));
                        let x = branches_allowed(ms.take(i as int), env);
                        let y = branches_allowed(ms.take(i + 1), env);
                        let z = allows(ms[i as int].0, env) && holds(sem(ms[i as int].1, env));
                        assert(y =~= x.push(z));
                        if some(x) {
                            let k = choose|k: int| 0 <= k < x.len() && #[trigger] x[k];
                            assert(y[k]);
                        }
                        if z {
                            assert(y[i as int]);
                        }
                    }
                }
                i += 1;
            }
            assert(ms.take(i as int) =~= ms);
            Ok(())
        },
        TransNode::Cmds(cs) => {
            let ghost ms = cmd_models(cs@);
            let mut i: usize = 0;
            while i < cs.len()
                invariant
                    i <= cs@.len(),
                    ms == cmd_models(cs@),
                    node.model() == TN::Cmds(ms),
                    mgr.wf(),
                    mgr.keeps(old(mgr)),
                    leaves_ok(les@),
                    encodes(les@, ts),
                    leaves_below(les@, w),
                    labels_ok(mgr, labels@),
                    low(old(mgr), pre, w),
                    all_low(mgr, out@, w),
                    forall|a: Asg| #[trigger]
                        any_of(mgr, out@, a) == (any_of(old(mgr), old(out)@, a) || (old(mgr).eval(
                            pre,
                            a,
                        ) && some_cmd(ms.take(i as int), leaves_at(les@, a)))),
                decreases cs.len() - i,
            {
                let ghost m0 = *mgr;
                let ghost out0 = out@;
                let gc = match enc_cmd(mgr, les, &cs[i], Ghost(ts)) {
                    Ok(n) => n,
                    Err(x) => {
                        proof {
                            labels_keep(mgr, &m0, labels@);
                        }
                        assert(ms[i as int] == cs@[i as int].model());
                        return Err(x);
                    },
                };
                let ghost m1 = *mgr;
                proof {
                    let c = ms[i as int];
                    assert(c == cs@[i as int].model());
                    cond_low(
                        mgr,
                        gc,
                        les@,
                        w,
                        |x: Leaves| holds(sem(c.guard, x)) && holds(sem(c.constraint, x)),
                    );
                    low_keeps(mgr, old(mgr), pre, w);
                }
                let ghost l0 = labels@;
                labels.push((label_of(&cs[i]), gc));
                let part = mgr.and(pre, gc);
                let ghost m2 = *mgr;
                proof {
                    assert forall|k: int| 0 <= k < labels@.len() implies mgr.valid(
                        (#[trigger] labels@[k]).1,
                    ) by {
                        if k < l0.len() {
                            assert(m0.valid(l0[k].1));
                        }
                    }
                    and_low(mgr, &m1, pre, gc, part, w);
                    any_keeps(mgr, &m0, out0, w);
                }
                add_part(mgr, out, part, Ghost(w));
                proof {
                    assert forall|a: Asg| #[trigger] any_of(mgr, out@, a) == (any_of(
                        old(mgr),
                        old(out)@,
                        a,
                    ) || (old(mgr).eval(pre, a) && some_cmd(ms.take(i + 1), leaves_at(les@, a)))) by {
                        let env = leaves_at(les@, a);
                        assert(any_of(&m2, out0, a) == any_of(&m0, out0, a));
                        assert(m2.eval(part, a) == (m1.eval(pre, a) && m1.eval(gc, a)));
                        assert(m1.eval(pre, a) == old(mgr).eval(pre, a));
                        let x = ms.take(i as int);
                        let y = ms.take(i + 1);
                        assert(y[i as int] == ms[i as int]);
                        if some_cmd(x, env) {
                            let k = choose|k: int|
                                0 <= k < x.len() && holds(sem((#[trigger] x[k]).guard, env))
                                    && holds(sem(x[k].constraint, env));
                            assert(y[k] == x[k]);
                        }
                        if some_cmd(y, env) {
                            let k = choose|k: int|
                                0 <= k < y.len() && holds(sem((#[trigger] y[k]).guard, env))
                                    && holds(sem(y[k].constraint, env));
                            if k < i {
                                assert(x[k] == y[k]);
                            }
                        }
                    }
                }
                i += 1;
            }
            assert(ms.take(i as int) =~= ms);
            Ok(())
        },
        _ => {
            let ghost m0 = *mgr;
            let ghost out0 = out@;
            let t = match enc_trans(mgr, les, node, labels, Ghost(ts)) {
                Ok(n) => n,
                Err(x) => {
                    return Err(x);
                },
            };
            let ghost m1 = *mgr;
            proof {
                cond_low(mgr, t, les@, w, |x: Leaves| allows(node.model(), x));
                low_keeps(mgr, &m0, pre, w);
            }
            let part = mgr.and(pre, t);
            let ghost m2 = *mgr;
            proof {
                labels_keep(mgr, &m1, labels@);
                and_low(mgr, &m1, pre, t, part, w);
                any_keeps(mgr, &m0, out0, w);
            }
            add_part(mgr, out, part, Ghost(w));
            proof {
                assert forall|a: Asg| #[trigger] any_of(mgr, out@, a) == (any_of(&m0, out0, a) || (
                m0.eval(pre, a) && allows(node.model(), leaves_at(les@, a)))) by {
                    assert(any_of(&m2, out0, a) == any_of(&m0, out0, a));
                    assert(m2.eval(part, a) == (m1.eval(pre, a) && m1.eval(t, a)));
                }
            }
            Ok(())
        },
    }
}

/// Where every leaf has a value.
fn enc_domain(mgr: &mut Mgr, les: &Vec<LeafEnc>, primed: bool, Ghost(w): Ghost<u32>) -> (r: NodeId)
    requires
        old(mgr).wf(),
        leaves_ok(les@),
        leaves_below(les@, w),
    ensures
        final(mgr).wf(),
        final(mgr).keeps(old(mgr)),
        low(final(mgr), r, w),
        forall|a: Asg| #[trigger] final(mgr).eval(r, a) == dom(les@, primed, a),
{
    proof {
        mgr.constants_meaning();
    }
    let mut r = T;
    let mut l: usize = 0;
    while l < les.len()
        invariant
            l <= les@.len(),
            mgr.wf(),
            mgr.keeps(old(mgr)),
            leaves_ok(les@),
            mgr.valid(r),
            forall|a: Asg| #[trigger] mgr.eval(r, a) == dom(les@.take(l as int), primed, a),
        decreases les.len() - l,
    {
        let ghost m0 = *mgr;
        let ghost r0 = r;
        let e = &les[l];
        assert(leaf_ok(les@[l as int]));
        let c = domain_constraint(mgr, e, primed);
        let ghost m1 = *mgr;
        r = mgr.and(r, c);
        proof {
            assert forall|a: Asg| #[trigger] mgr.eval(r, a) == dom(les@.take(l + 1), primed, a) by {
                assert(m1.eval(r0, a) == m0.eval(r0, a));
                let x = les@.take(l as int);
                let y = les@.take(l + 1);
                if dom(y, primed, a) {
                    assert(leaf_out(y[l as int], primed, a) is Some);
                    assert forall|k: int| 0 <= k < x.len() implies leaf_out(
                        #[trigger] x[k],
                        primed,
                        a,
                    ) is Some by {
                        assert(leaf_out(y[k], primed, a) is Some);
                    }
                }
                if dom(x, primed, a) && leaf_out(*e, primed, a) is Some {
                    assert forall|k: int| 0 <= k < y.len() implies leaf_out(
                        #[trigger] y[k],
                        primed,
                        a,
                    ) is Some by {
                        if k < l {
                            assert(leaf_out(x[k], primed, a) is Some);
                        }
                    }
                }
            }
        }
        l += 1;
    }
    proof {
        assert(les@.take(l as int) =~= les@);
        let q = below(w);
        assert forall|a: Asg, b: Asg| (forall|v: u32| #[trigger] q(v) ==> a(v) == b(v)) implies #[trigger] mgr.eval(
            r,
            a,
        ) == #[trigger] mgr.eval(r, b) by {
            if dom(les@, primed, a) {
                dom_same(les@, w, primed, a, b);
            }
            if dom(les@, primed, b) {
                assert(forall|v: u32| #[trigger] q(v) ==> b(v) == a(v));
                dom_same(les@, w, primed, b, a);
            }
        }
    }
    r
}

proof fn dom_same(es: Seq<LeafEnc>, w: u32, primed: bool, a: Asg, b: Asg)
    requires
        leaves_ok(es),
        leaves_below(es, w),
        forall|v: u32| #[trigger] below(w)(v) ==> a(v) == b(v),
        dom(es, primed, a),
    ensures
        dom(es, primed, b),
{
    assert forall|l: int| 0 <= l < es.len() implies leaf_out(#[trigger] es[l], primed, b) is Some by {
        assert(leaf_ok(es[l]));
        leaf_same(es[l], w, a, b, primed);
        assert(leaf_out(es[l], primed, a) is Some);
    }
}

/// Where the leaf has a value.
fn domain_constraint(mgr: &mut Mgr, e: &LeafEnc, primed: bool) -> (r: NodeId)
    requires
        old(mgr).wf(),
        leaf_ok(*e),
    ensures
        final(mgr).wf(),
        final(mgr).keeps(old(mgr)),
        final(mgr).valid(r),
        forall|a: Asg| #[trigger] final(mgr).eval(r, a) == leaf_out(*e, primed, a) is Some,
{
    proof {
        mgr.constants_meaning();
    }
    let ghost v = e.base + if primed {
        1int
    } else {
        0int
    };
    let mut r = F;
    let mut i: usize = 0;
    while i < e.values.len()
        invariant
            i <= e.values@.len(),
            leaf_ok(*e),
            v == e.base + if primed {
                1int
            } else {
                0int
            },
            mgr.wf(),
            mgr.keeps(old(mgr)),
            mgr.valid(r),
            forall|a: Asg| #[trigger] mgr.eval(r, a) == (code(a, v, e.bits as nat) < i),
        decreases e.values.len() - i,
    {
        let ghost m0 = *mgr;
        let ghost r0 = r;
        let c = leaf_eq_index(mgr, e, primed, i);
        let ghost m1 = *mgr;
        r = mgr.or(r, c);
        assert forall|a: Asg| #[trigger] mgr.eval(r, a) == (code(a, v, e.bits as nat) < i + 1) by {
            assert(m1.eval(r0, a) == m0.eval(r0, a));
        }
        i += 1;
    }
    r
}

/// A leaf's current value depends on the bits of the current state.
proof fn leaf_same_now(e: LeafEnc, w: u32, a: Asg, b: Asg)
    requires
        leaf_ok(e),
        e.base + 2 * e.bits <= w,
        alike(a, b, w),
    ensures
        leaf_out(e, false, a) == leaf_out(e, false, b),
{
    assert forall|k: int| 0 <= k < e.bits implies a((e.base + 2 * k) as u32) == #[trigger] b(
        (e.base + 2 * k) as u32,
    ) by {
        assert(bits(w)((e.base + 2 * k) as u32));
    }
    code_same(a, b, e.base as int, e.bits as nat);
}

/// Alike assignments encode the same state.
proof fn st_same(es: Seq<LeafEnc>, w: u32, a: Asg, b: Asg)
    requires
        leaves_ok(es),
        leaves_below(es, w),
        alike(a, b, w),
    ensures
        dom(es, false, a) == dom(es, false, b),
        st(es, a) == st(es, b),
{
    assert forall|l: int| 0 <= l < es.len() implies leaf_out(#[trigger] es[l], false, a) == leaf_out(
        es[l],
        false,
        b,
    ) by {
        assert(leaf_ok(es[l]));
        leaf_same_now(es[l], w, a, b);
    }
    if dom(es, false, a) {
        assert forall|l: int| 0 <= l < es.len() implies leaf_out(#[trigger] es[l], false, b) is Some by {
            assert(leaf_out(es[l], false, a) is Some);
        }
    }
    if dom(es, false, b) {
        assert forall|l: int| 0 <= l < es.len() implies leaf_out(#[trigger] es[l], false, a) is Some by {
            assert(leaf_out(es[l], false, b) is Some);
        }
    }
    assert(st(es, a) =~= st(es, b));
}

/// A function of the encoded state is a set.
proof fn by_state(m: &Mgr, n: NodeId, es: Seq<LeafEnc>, w: u32, p: spec_fn(State) -> bool)
    requires
        leaves_ok(es),
        leaves_below(es, w),
        m.valid(n),
        forall|a: Asg| #[trigger] m.eval(n, a) == (dom(es, false, a) && p(st(es, a))),
    ensures
        is_set(m, n, w),
{
    let q = bits(w);
    assert forall|a: Asg, b: Asg| (forall|v: u32| #[trigger] q(v) ==> a(v) == b(v)) implies #[trigger] m.eval(
        n,
        a,
    ) == #[trigger] m.eval(n, b) by {
        st_same(es, w, a, b);
    }
}

/// A condition on the current state, in an encoded state.
proof fn cond_now(e: FE, es: Seq<LeafEnc>, a: Asg)
    requires
        unprimed(e),
        dom(es, false, a),
    ensures
        sem(e, leaves_at(es, a)) == sem(e, state_leaves(st(es, a))),
{
    let x = leaves_at(es, a);
    let y = state_leaves(st(es, a));
    assert forall|l: LeafId| #[trigger] x(l, false) == y(l, false) by {
        now_leaves(es, a, l);
    }
    unprimed_meaning(e, x, y);
}

proof fn conds_now(ms: Seq<FE>, es: Seq<LeafEnc>, a: Asg)
    requires
        crate::fexpr::all_true(unprimeds(ms)),
        dom(es, false, a),
    ensures
        sems(ms, leaves_at(es, a)) == sems(ms, state_leaves(st(es, a))),
{
    let x = leaves_at(es, a);
    let y = state_leaves(st(es, a));
    assert forall|l: LeafId| #[trigger] x(l, false) == y(l, false) by {
        now_leaves(es, a, l);
    }
    unprimeds_meaning(ms, x, y);
}

proof fn cmds_now(cs: Seq<crate::flat::Cmd>, es: Seq<LeafEnc>, a: Asg)
    requires
        cmds_unprimed(cs),
        dom(es, false, a),
    ensures
        some_cmd(cs, leaves_at(es, a)) == some_cmd(cs, state_leaves(st(es, a))),
{
    let x = leaves_at(es, a);
    let y = state_leaves(st(es, a));
    assert forall|i: int| 0 <= i < cs.len() implies sem((#[trigger] cs[i]).guard, x) == sem(
        cs[i].guard,
        y,
    ) && sem(cs[i].constraint, x) == sem(cs[i].constraint, y) by {
        cond_now(cs[i].guard, es, a);
        cond_now(cs[i].constraint, es, a);
    }
    if some_cmd(cs, x) {
        let i = choose|i: int|
            0 <= i < cs.len() && holds(sem((#[trigger] cs[i]).guard, x)) && holds(
                sem(cs[i].constraint, x),
            );
        assert(holds(sem(cs[i].guard, y)) && holds(sem(cs[i].constraint, y)));
    }
    if some_cmd(cs, y) {
        let i = choose|i: int|
            0 <= i < cs.len() && holds(sem((#[trigger] cs[i]).guard, y)) && holds(
                sem(cs[i].constraint, y),
            );
        assert(holds(sem(cs[i].guard, x)) && holds(sem(cs[i].constraint, x)));
    }
}

/// The initialization blocks up to number `n`.
spec fn blocks_at(bs: Seq<Seq<crate::flat::Cmd>>, n: int, env: Leaves) -> bool {
    forall|i: int| 0 <= i < n ==> some_cmd(#[trigger] bs[i], env)
}

/// The initial states.
fn enc_init(
    mgr: &mut Mgr,
    les: &Vec<LeafEnc>,
    flat: &FlatModule,
    dom_cur: NodeId,
    inv: NodeId,
    Ghost(w): Ghost<u32>,
) -> (r: Result<NodeId, EngineError>)
    requires
        old(mgr).wf(),
        leaves_ok(les@),
        encodes(les@, flat.sys().leaves),
        leaves_below(les@, w),
        flat.sys().plain(),
        old(mgr).valid(dom_cur),
        forall|a: Asg| #[trigger] old(mgr).eval(dom_cur, a) == dom(les@, false, a),
        old(mgr).valid(inv),
        forall|a: Asg| #[trigger]
            old(mgr).eval(inv, a) == all_hold(sems(flat.sys().invariants, leaves_at(les@, a))),
    ensures
        final(mgr).wf(),
        final(mgr).keeps(old(mgr)),
        match r {
            Ok(n) => is_set(final(mgr), n, w) && forall|a: Asg| #[trigger]
                final(mgr).eval(n, a) == (dom(les@, false, a) && flat.sys().initial(st(les@, a))),
            Err(x) => x is Eval && !flat.sys().well_typed(),
        },
{
    let ghost sys = flat.sys();
    let ghost ts = sys.leaves;
    let ghost m0 = *mgr;
    let base = mgr.and(dom_cur, inv);
    let ghost m1 = *mgr;
    let defs = match enc_junction(mgr, les, &flat.init_defs, true, Ghost(ts)) {
        Ok(n) => n,
        Err(x) => {
            return Err(x);
        },
    };
    let ghost m2 = *mgr;
    let mut init = mgr.and(base, defs);
    let ghost m3 = *mgr;
    proof {
        assert forall|a: Asg| #[trigger] mgr.eval(init, a) == (dom(les@, false, a) && all_hold(
            sems(sys.invariants, leaves_at(les@, a)),
        ) && all_hold(sems(sys.init_defs, leaves_at(les@, a))) && blocks_at(
            sys.init_choices,
            0,
            leaves_at(les@, a),
        )) by {
            assert(m2.eval(base, a) == m1.eval(base, a));
            assert(m1.eval(base, a) == (m0.eval(dom_cur, a) && m0.eval(inv, a)));
        }
    }
    let mut i: usize = 0;
    while i < flat.init_choices.len()
        invariant
            i <= flat.init_choices@.len(),
            sys == flat.sys(),
            ts == sys.leaves,
            mgr.wf(),
            mgr.keeps(old(mgr)),
            leaves_ok(les@),
            encodes(les@, ts),
            mgr.valid(init),
            forall|a: Asg| #[trigger]
                mgr.eval(init, a) == (dom(les@, false, a) && all_hold(
                    sems(sys.invariants, leaves_at(les@, a)),
                ) && all_hold(sems(sys.init_defs, leaves_at(les@, a))) && blocks_at(
                    sys.init_choices,
                    i as int,
                    leaves_at(les@, a),
                )),
        decreases flat.init_choices.len() - i,
    {
        let ghost n0 = *mgr;
        let ghost init0 = init;
        let mut labels: Vec<(String, NodeId)> = Vec::new();
        let alt = match enc_cmds(mgr, les, &flat.init_choices[i], &mut labels, Ghost(ts)) {
            Ok(n) => n,
            Err(x) => {
                assert(sys.init_choices[i as int] == cmd_models(flat.init_choices@[i as int]@));
                return Err(x);
            },
        };
        let ghost n1 = *mgr;
        init = mgr.and(init, alt);
        proof {
            assert(sys.init_choices[i as int] == cmd_models(flat.init_choices@[i as int]@));
            assert forall|a: Asg| #[trigger] mgr.eval(init, a) == (dom(les@, false, a) && all_hold(
                sems(sys.invariants, leaves_at(les@, a)),
            ) && all_hold(sems(sys.init_defs, leaves_at(les@, a))) && blocks_at(
                sys.init_choices,
                i + 1,
                leaves_at(les@, a),
            )) by {
                assert(n1.eval(init0, a) == n0.eval(init0, a));
                let env = leaves_at(les@, a);
                if blocks_at(sys.init_choices, i as int, env) && some_cmd(
                    sys.init_choices[i as int],
                    env,
                ) {
                    assert forall|k: int| 0 <= k < i + 1 implies some_cmd(
                        #[trigger] sys.init_choices[k],
                        env,
                    ) by {}
                }
                if blocks_at(sys.init_choices, i + 1, env) {
                    assert(some_cmd(sys.init_choices[i as int], env));
                }
            }
        }
        i += 1;
    }
    proof {
        assert forall|a: Asg| #[trigger] mgr.eval(init, a) == (dom(les@, false, a) && sys.initial(
            st(les@, a),
        )) by {
            if dom(les@, false, a) {
                let env = leaves_at(les@, a);
                let s = st(les@, a);
                st_is_state(les@, sys, a);
                conds_now(sys.invariants, les@, a);
                conds_now(sys.init_defs, les@, a);
                assert forall|k: int| 0 <= k < sys.init_choices.len() implies some_cmd(
                    #[trigger] sys.init_choices[k],
                    env,
                ) == some_cmd(sys.init_choices[k], state_leaves(s)) by {
                    cmds_now(sys.init_choices[k], les@, a);
                }
                if sys.initial(s) {
                    assert forall|k: int| 0 <= k < sys.init_choices.len() implies some_cmd(
                        #[trigger] sys.init_choices[k],
                        env,
                    ) by {
                        assert(some_cmd(sys.init_choices[k], state_leaves(s)));
                    }
                }
                if blocks_at(sys.init_choices, sys.init_choices.len() as int, env) {
                    assert forall|k: int| 0 <= k < sys.init_choices.len() implies some_cmd(
                        #[trigger] sys.init_choices[k],
                        state_leaves(s),
                    ) by {
                        assert(some_cmd(sys.init_choices[k], env));
                    }
                }
            }
        }
        by_state(mgr, init, les@, w, |s: State| sys.initial(s));
    }
    Ok(init)
}

impl<'m> Symbolic<'m> {
    /// The engine is in good order: its diagrams denote the states, the initial states and the
    /// steps of the transition system.
    pub closed spec fn wf(&self) -> bool {
        let sys = self.flat.sys();
        let es = self.leaves@;
        &&& self.mgr.wf()
        &&& keys_ok(&self.mgr)
        &&& leaves_ok(es)
        &&& encodes(es, sys.leaves)
        &&& leaves_below(es, self.width)
        &&& self.width % 2 == 0
        &&& self.width < VAR_LIMIT
        &&& self.width == width_of(sys.leaves, sys.leaves.len())
        &&& sys.plain()
        &&& is_set(&self.mgr, self.domain, self.width)
        &&& forall|a: Asg| #[trigger] self.mgr.eval(self.domain, a) == dom(es, false, a)
        &&& is_set(&self.mgr, self.init, self.width)
        &&& forall|a: Asg| #[trigger]
            self.mgr.eval(self.init, a) == (dom(es, false, a) && sys.initial(st(es, a)))
        &&& is_rel(&self.mgr, self.parts@, self.width)
        &&& forall|x: Asg, y: Asg| #[trigger]
            rel_at(&self.mgr, self.parts@, x, y) == (dom(es, false, x) && dom(es, false, y) && sys.step(
                st(es, x),
                st(es, y),
            ))
        &&& labels_ok(&self.mgr, self.cmd_relations@)
    }

    /// The transition system.
    pub closed spec fn sys(&self) -> Sys {
        self.flat.sys()
    }

    /// The diagram variables of a leaf: the first, and the first that is not one of them.
    pub closed spec fn bits_of(&self, l: int) -> (int, int) {
        (self.leaves@[l].base as int, self.leaves@[l].base + 2 * self.leaves@[l].bits)
    }

    /// The node denotes a set of states.
    pub closed spec fn holds_states(&self, n: NodeId) -> bool {
        &&& is_set(&self.mgr, n, self.width)
        &&& forall|a: Asg, b: Asg|
            dom(self.leaves@, false, a) && dom(self.leaves@, false, b) && st(self.leaves@, a) == st(
                self.leaves@,
                b,
            ) ==> #[trigger] self.mgr.eval(n, a) == #[trigger] self.mgr.eval(n, b)
    }

    /// The state belongs to the set of the node.
    pub closed spec fn member(&self, n: NodeId, s: State) -> bool {
        exists|a: Asg|
            dom(self.leaves@, false, a) && st(self.leaves@, a) == s && #[trigger] self.mgr.eval(n, a)
    }

    /// The engine for the same system with the sets that `old` had.
    pub closed spec fn follows(&self, old: &Symbolic<'m>) -> bool {
        &&& self.wf()
        &&& self.flat == old.flat
        &&& self.leaves == old.leaves
        &&& self.width == old.width
        &&& self.init == old.init
        &&& self.domain == old.domain
        &&& self.parts == old.parts
        &&& self.mgr.keeps_values(&old.mgr)
    }

    /// An engine for the transition system.
    pub fn new(flat: &'m FlatModule) -> (r: Result<Symbolic<'m>, EngineError>)
        requires
            flat.sys().plain(),
        ensures
            match r {
                Ok(s) => s.wf() && s.sys() == flat.sys() && forall|l: int| !#[trigger] endless_at(flat.leaves@, l),
                Err(x) => build_error(flat, x),
            },
    {
        Symbolic::with_order(flat, &Vec::new())
    }

    /// An engine for the transition system, with the bits of the leaves in the given order.
    pub fn with_order(flat: &'m FlatModule, order: &Vec<LeafId>) -> (r: Result<
        Symbolic<'m>,
        EngineError,
    >)
        requires
            flat.sys().plain(),
        ensures
            match r {
                Ok(s) => {
                    &&& s.wf()
                    &&& s.sys() == flat.sys()
                    &&& forall|l: int| !#[trigger] endless_at(flat.leaves@, l)
                    &&& is_order(order@, flat.leaves@.len()) ==> forall|i: int, j: int|
                        #![trigger order@[i], order@[j]]
                        0 <= i < j < order@.len() ==> s.bits_of(order@[i] as int).1 <= s.bits_of(order@[j] as int).0
                },
                Err(x) => build_error(flat, x),
            },
    {
        let (leaves, width) = match layout(&flat.leaves, order) {
            Ok(p) => p,
            Err(x) => {
                return Err(x);
            },
        };
        let ghost sys = flat.sys();
        let ghost ts = sys.leaves;
        assert forall|l: int| !#[trigger] endless_at(flat.leaves@, l) by {
            if endless_at(flat.leaves@, l) {
                assert(ts[l] == flat.leaves@[l].ty@);
            }
        }
        let mut mgr = Mgr::new();
        assert(keys_ok(&mgr));
        let dom_cur = enc_domain(&mut mgr, &leaves, false, Ghost(width));
        let ghost m1 = mgr;
        let dom_next = enc_domain(&mut mgr, &leaves, true, Ghost(width));
        let ghost m2 = mgr;
        let inv = match enc_junction(&mut mgr, &leaves, &flat.invariants, true, Ghost(ts)) {
            Ok(n) => n,
            Err(x) => {
                return Err(x);
            },
        };
        let ghost m3 = mgr;
        proof {
            let f = |x: Leaves| all_hold(sems(sys.invariants, x));
            assert forall|x: Leaves, y: Leaves| (forall|l: LeafId| #[trigger] x(l, false) == y(l, false)) implies
                #[trigger] f(x) == #[trigger] f(y) by {
                unprimeds_meaning(sys.invariants, x, y);
            }
            assert(forall|a: Asg| #[trigger] mgr.eval(inv, a) == f(leaves_at(leaves@, a)));
            cond_set(&mgr, inv, leaves@, width, f);
            cond_low(&mgr, inv, leaves@, width, f);
            assert forall|a: Asg, b: Asg| (forall|v: u32| #[trigger] current()(v) ==> a(v) == b(v)) implies
                #[trigger] mgr.eval(inv, a) == #[trigger] mgr.eval(inv, b) by {
                let q = bits(width);
                assert forall|v: u32| #[trigger] q(v) implies a(v) == b(v) by {
                    assert(current()(v));
                }
            }
        }
        let inv_next = mgr.shift(inv, 1);
        let ghost m4 = mgr;
        let init = match enc_init(&mut mgr, &leaves, flat, dom_cur, inv, Ghost(width)) {
            Ok(n) => n,
            Err(x) => {
                return Err(x);
            },
        };
        let ghost m5 = mgr;
        let g1 = mgr.and(dom_cur, dom_next);
        let ghost m6 = mgr;
        let g2 = mgr.and(g1, inv);
        let ghost m7 = mgr;
        let g3 = mgr.and(g2, inv_next);
        let ghost m8 = mgr;
        let defs = match enc_junction(&mut mgr, &leaves, &flat.trans_defs, true, Ghost(ts)) {
            Ok(n) => n,
            Err(x) => {
                return Err(x);
            },
        };
        let ghost m9 = mgr;
        let global = mgr.and(g3, defs);
        let ghost m10 = mgr;
        proof {
            low_keeps(&m5, &m1, dom_cur, width);
            low_keeps(&m5, &m2, dom_next, width);
            and_low(&m6, &m5, dom_cur, dom_next, g1, width);
            low_keeps(&m6, &m3, inv, width);
            and_low(&m7, &m6, g1, inv, g2, width);
            shifted_low(&m4, &m3, inv, inv_next, leaves@, width, sys.invariants);
            low_keeps(&m7, &m4, inv_next, width);
            and_low(&m8, &m7, g2, inv_next, g3, width);
            low_keeps(&m9, &m8, g3, width);
            cond_low(&m9, defs, leaves@, width, |x: Leaves| all_hold(sems(sys.trans_defs, x)));
            and_low(&m10, &m9, g3, defs, global, width);
            assert forall|a: Asg| #[trigger] m10.eval(global, a) == (dom(leaves@, false, a) && dom(
                leaves@,
                true,
                a,
            ) && all_hold(sems(sys.invariants, leaves_at(leaves@, a))) && all_hold(
                sems(sys.invariants, leaves_at(leaves@, shifted(a, true))),
            ) && all_hold(sems(sys.trans_defs, leaves_at(leaves@, a)))) by {
                assert(m9.eval(g3, a) == m8.eval(g3, a));
                assert(m8.eval(g3, a) == (m7.eval(g2, a) && m7.eval(inv_next, a)));
                assert(m7.eval(g2, a) == (m6.eval(g1, a) && m6.eval(inv, a)));
                assert(m6.eval(g1, a) == (m5.eval(dom_cur, a) && m5.eval(dom_next, a)));
                assert(m5.eval(dom_cur, a) == m1.eval(dom_cur, a));
                assert(m5.eval(dom_next, a) == m2.eval(dom_next, a));
                assert(m6.eval(inv, a) == m3.eval(inv, a));
                assert(m7.eval(inv_next, a) == m4.eval(inv_next, a));
                assert(m4.eval(inv_next, a) == m3.eval(inv, shifted(a, true)));
            }
        }
        let mut parts: Vec<NodeId> = Vec::new();
        let mut labels: Vec<(String, NodeId)> = Vec::new();
        match enc_trans_parts(
            &mut mgr,
            &leaves,
            &flat.trans,
            global,
            &mut parts,
            &mut labels,
            Ghost(ts),
            Ghost(width),
        ) {
            Ok(_) => {},
            Err(x) => {
                return Err(x);
            },
        }
        proof {
            assert forall|x: Asg, y: Asg| #[trigger] rel_at(&mgr, parts@, x, y) == (dom(
                leaves@,
                false,
                x,
            ) && dom(leaves@, false, y) && sys.step(st(leaves@, x), st(leaves@, y))) by {
                let a = join(x, y);
                assert(rel_at(&mgr, parts@, x, y) == any_of(&mgr, parts@, a));
                assert(!any_of(&m10, Seq::empty(), a));
                join_leaves(leaves@, x, y);
                if dom(leaves@, false, x) && dom(leaves@, false, y) {
                    st_is_state(leaves@, sys, x);
                    st_is_state(leaves@, sys, y);
                    let env = leaves_at(leaves@, a);
                    let b = shifted(a, true);
                    assert(alike(b, y, width)) by {
                        assert forall|v: u32| #[trigger] bits(width)(v) implies b(v) == y(v) by {}
                    }
                    st_same(leaves@, width, b, y);
                    conds_now(sys.invariants, leaves@, b);
                    assert forall|l: LeafId| #[trigger] env(l, false) == state_leaves(
                        st(leaves@, x),
                    )(l, false) by {}
                    unprimeds_meaning(sys.invariants, env, state_leaves(st(leaves@, x)));
                }
            }
            assert forall|a: Asg| #[trigger] mgr.eval(dom_cur, a) == dom(leaves@, false, a) by {
                assert(mgr.eval(dom_cur, a) == m1.eval(dom_cur, a));
            }
            by_state(&mgr, dom_cur, leaves@, width, |s: State| true);
            assert forall|a: Asg| #[trigger] mgr.eval(init, a) == (dom(leaves@, false, a) && sys.initial(
                st(leaves@, a),
            )) by {
                assert(mgr.eval(init, a) == m5.eval(init, a));
            }
            by_state(&mgr, init, leaves@, width, |s: State| sys.initial(s));
            assert(is_rel(&mgr, parts@, width)) by {
                assert forall|k: int| 0 <= k < parts@.len() implies mgr.valid(#[trigger] parts@[k])
                    && mgr.depends_on(parts@[k], below(width)) by {
                    assert(low(&mgr, parts@[k], width));
                }
            }
        }
        Ok(
            Symbolic {
                flat,
                mgr,
                leaves,
                width,
                domain: dom_cur,
                init,
                parts,
                cmd_relations: labels,
            },
        )
    }
}

proof fn shifted_low(
    m: &Mgr,
    old: &Mgr,
    n: NodeId,
    r: NodeId,
    es: Seq<LeafEnc>,
    w: u32,
    ms: Seq<FE>,
)
    requires
        leaves_ok(es),
        leaves_below(es, w),
        w % 2 == 0,
        m.valid(r),
        is_set(old, n, w),
        forall|a: Asg| #[trigger] m.eval(r, a) == old.eval(n, shifted(a, true)),
    ensures
        low(m, r, w),
{
    let q = below(w);
    assert forall|a: Asg, b: Asg| (forall|v: u32| #[trigger] q(v) ==> a(v) == b(v)) implies #[trigger] m.eval(
        r,
        a,
    ) == #[trigger] m.eval(r, b) by {
        let x = shifted(a, true);
        let y = shifted(b, true);
        let p = bits(w);
        assert forall|v: u32| #[trigger] p(v) implies x(v) == y(v) by {
            assert(q((v + 1) as u32));
        }
        assert(old.eval(n, x) == old.eval(n, y));
    }
}

/// Why no engine can be made for the system.
pub open spec fn build_error(flat: &FlatModule, x: EngineError) -> bool {
    match x {
        EngineError::Eval(_) => !flat.sys().well_typed() && (forall|l: int| !#[trigger] endless_at(flat.leaves@, l))
            && width_of(flat.sys().leaves, flat.leaves@.len()) < VAR_LIMIT,
        _ => layout_error(flat.leaves@, x),
    }
}

/// The states of a list of value lists.
pub open spec fn states_of(p: Seq<Vec<Value>>) -> Seq<State> {
    Seq::new(p.len(), |i: int| models(p[i]@))
}

proof fn code_bound(a: Asg, v: int, n: nat)
    ensures
        code(a, v, n) < p2(n),
    decreases n,
{
    if n > 0 {
        code_bound(a, v + 2, (n - 1) as nat);
    }
}

proof fn p2_mono(m: nat, n: nat)
    requires
        m <= n,
    ensures
        p2(m) <= p2(n),
    decreases n,
{
    if m < n {
        p2_mono(m, (n - 1) as nat);
    }
}

/// The number that the bits of a state hold.
fn code_in(c: &Cube, v: u32, n: u32) -> (r: u64)
    requires
        n <= 64,
        v + 2 * n < VAR_LIMIT,
    ensures
        r == code(asg_of(c@), v as int, n as nat),
    decreases n,
{
    if n == 0 {
        return 0;
    }
    let rest: u64 = code_in(c, v + 2, n - 1);
    proof {
        code_bound(asg_of(c@), v + 2, (n - 1) as nat);
        p2_mono(n as nat, 64);
        p2_64();
        assert(p2(n as nat) == 2 * p2((n - 1) as nat));
    }
    let on = match cube_get(c, v) {
        Some(b) => b,
        None => false,
    };
    if on {
        1 + 2 * rest
    } else {
        2 * rest
    }
}

/// The values of the leaves in an encoded state.
fn decode(les: &Vec<LeafEnc>, c: &Cube) -> (r: Vec<Value>)
    requires
        leaves_ok(les@),
        dom(les@, false, asg_of(c@)),
    ensures
        models(r@) == st(les@, asg_of(c@)),
{
    let ghost a = asg_of(c@);
    let mut out: Vec<Value> = Vec::new();
    let mut l: usize = 0;
    while l < les.len()
        invariant
            l <= les@.len(),
            a == asg_of(c@),
            leaves_ok(les@),
            dom(les@, false, a),
            out@.len() == l,
            forall|k: int| 0 <= k < l ==> (#[trigger] out@[k]).model() == leaf_out(les@[k], false, a)->0,
        decreases les.len() - l,
    {
        let e = &les[l];
        assert(leaf_ok(les@[l as int]));
        assert(leaf_out(les@[l as int], false, a) is Some);
        let i: u64 = code_in(c, e.base, e.bits);
        assert(i == code(a, e.base + 0int, e.bits as nat));
        let n: usize = e.values.len();
        assert(i < n);
        assert(leaf_out(les@[l as int], false, a) == Some(e.values@[i as int].model()));
        let k: usize = i as usize;
        assert(k == i);
        out.push(e.values[k].clone());
        l += 1;
    }
    assert(models(out@) =~= st(les@, a));
    out
}

/// The values of the leaves in a sequence of encoded states.
fn decode_all(les: &Vec<LeafEnc>, p: &Vec<Cube>) -> (r: Vec<Vec<Value>>)
    requires
        leaves_ok(les@),
        forall|i: int| 0 <= i < p@.len() ==> dom(les@, false, asg_of((#[trigger] p@[i])@)),
    ensures
        r@.len() == p@.len(),
        states_of(r@) == Seq::new(p@.len(), |i: int| st(les@, asg_of(p@[i]@))),
{
    let mut out: Vec<Vec<Value>> = Vec::new();
    let mut i: usize = 0;
    while i < p.len()
        invariant
            i <= p@.len(),
            leaves_ok(les@),
            forall|i: int| 0 <= i < p@.len() ==> dom(les@, false, asg_of((#[trigger] p@[i])@)),
            out@.len() == i,
            forall|k: int| 0 <= k < i ==> models((#[trigger] out@[k])@) == st(les@, asg_of(p@[k]@)),
        decreases p.len() - i,
    {
        assert(dom(les@, false, asg_of(p@[i as int]@)));
        out.push(decode(les, &p[i]));
        i += 1;
    }
    assert(states_of(out@) =~= Seq::new(p@.len(), |i: int| st(les@, asg_of(p@[i]@))));
    out
}

/// A sequence of states in which each leads to the next, of the given length, from `s`.
pub open spec fn ends(sys: Sys, s: spec_fn(State) -> bool, k: nat, t: State, q: Seq<State>) -> bool {
    q.len() == k + 1 && s(q[0]) && sys.chain(q) && q.last() == t
}

/// In `k` steps the system can come from a state of `s` to `t`.
pub open spec fn chain_to(sys: Sys, s: spec_fn(State) -> bool, k: nat, t: State) -> bool {
    exists|q: Seq<State>| #[trigger] ends(sys, s, k, t, q)
}

/// The distance of `t` from the states of `s` is `k`: the system can come to `t` in `k` steps, and not in fewer.
pub open spec fn nearest(sys: Sys, s: spec_fn(State) -> bool, k: nat, t: State) -> bool {
    chain_to(sys, s, k, t) && forall|j: nat| j < k ==> !#[trigger] chain_to(sys, s, j, t)
}

impl<'m> Symbolic<'m> {
    /// The set of states of a node.
    pub open spec fn states(&self, n: NodeId) -> spec_fn(State) -> bool {
        |s: State| self.member(n, s)
    }

    /// Steps between assignments are steps between states.
    proof fn walk_down(&self, n: NodeId, k: nat, y: Asg)
        requires
            self.wf(),
            is_set(&self.mgr, n, self.width),
            forall|a: Asg| #[trigger] self.mgr.eval(n, a) ==> dom(self.leaves@, false, a),
            after(set_of(&self.mgr, n), rel_of(&self.mgr, self.parts@), k, y),
        ensures
            dom(self.leaves@, false, y),
            chain_to(self.sys(), self.states(n), k, st(self.leaves@, y)),
        decreases k,
    {
        let s = set_of(&self.mgr, n);
        let r = rel_of(&self.mgr, self.parts@);
        let es = self.leaves@;
        if k == 0 {
            assert(s(y));
            assert(self.mgr.eval(n, y));
            assert(self.member(n, st(es, y)));
            let q = seq![st(es, y)];
            assert(ends(self.sys(), self.states(n), 0, st(es, y), q));
        } else {
            let f = crate::reach::after_set(s, r, (k - 1) as nat);
            let x = choose|x: Asg| #[trigger] f(x) && r(x, y);
            assert(after(s, r, (k - 1) as nat, x));
            self.walk_down(n, (k - 1) as nat, x);
            assert(rel_at(&self.mgr, self.parts@, x, y));
            let q = choose|q: Seq<State>| #[trigger]
                ends(self.sys(), self.states(n), (k - 1) as nat, st(es, x), q);
            let p = q.push(st(es, y));
            assert forall|i: int| 0 <= i < p.len() - 1 implies self.sys().step(#[trigger] p[i], p[i + 1]) by {
                if i < q.len() - 1 {
                    assert(self.sys().step(q[i], q[i + 1]));
                } else {
                    assert(p[i] == q.last());
                }
            }
            assert(ends(self.sys(), self.states(n), k, st(es, y), p));
        }
    }

    /// Steps between states are steps between assignments.
    proof fn walk_up(&self, n: NodeId, q: Seq<State>, y: Asg)
        requires
            self.wf(),
            is_set(&self.mgr, n, self.width),
            q.len() > 0,
            self.member(n, q[0]),
            self.sys().chain(q),
            dom(self.leaves@, false, y),
            st(self.leaves@, y) == q.last(),
            q.len() == 1 ==> self.mgr.eval(n, y),
        ensures
            after(set_of(&self.mgr, n), rel_of(&self.mgr, self.parts@), (q.len() - 1) as nat, y),
        decreases q.len(),
    {
        let s = set_of(&self.mgr, n);
        let r = rel_of(&self.mgr, self.parts@);
        let es = self.leaves@;
        if q.len() == 1 {
            assert(s(y));
        } else {
            let p = q.drop_last();
            let m = q.len() - 2;
            assert(self.sys().step(q[m], q[m + 1]));
            assert forall|i: int| 0 <= i < p.len() - 1 implies self.sys().step(#[trigger] p[i], p[i + 1]) by {
                assert(self.sys().step(q[i], q[i + 1]));
            }
            let x = if p.len() == 1 {
                choose|a: Asg| dom(es, false, a) && st(es, a) == q[0] && #[trigger] self.mgr.eval(n, a)
            } else {
                asg_of_state(es, q[m])
            };
            if p.len() > 1 {
                state_encoded(es, self.sys(), q[m]);
            }
            assert(dom(es, false, x) && st(es, x) == p.last());
            self.walk_up(n, p, x);
            assert(rel_at(&self.mgr, self.parts@, x, y));
            let f = crate::reach::after_set(s, r, (q.len() - 2) as nat);
            assert(f(x) && r(x, y));
        }
    }

    /// A path between assignments is a sequence of steps.
    proof fn chain_of(&self, p: Seq<Cube>)
        requires
            self.wf(),
            p.len() > 0,
            linked(rel_of(&self.mgr, self.parts@), p),
            dom(self.leaves@, false, asg_of(p[0]@)),
        ensures
            forall|i: int| 0 <= i < p.len() ==> dom(self.leaves@, false, asg_of((#[trigger] p[i])@)),
            self.sys().chain(Seq::new(p.len(), |i: int| st(self.leaves@, asg_of(p[i]@)))),
    {
        let es = self.leaves@;
        let q = Seq::new(p.len(), |i: int| st(es, asg_of(p[i]@)));
        assert forall|i: int| 0 <= i < p.len() - 1 implies rel_at(
            &self.mgr,
            self.parts@,
            asg_of((#[trigger] p[i])@),
            asg_of(p[i + 1]@),
        ) by {
            assert(rel_of(&self.mgr, self.parts@)(asg_of(p[i]@), asg_of(p[i + 1]@)));
        }
        assert forall|i: int| 0 <= i < p.len() implies dom(es, false, asg_of((#[trigger] p[i])@)) by {
            if i > 0 {
                assert(rel_at(&self.mgr, self.parts@, asg_of(p[i - 1]@), asg_of(p[(i - 1) + 1]@)));
            }
        }
        assert forall|i: int| 0 <= i < q.len() - 1 implies self.sys().step(#[trigger] q[i], q[i + 1]) by {
            assert(rel_at(&self.mgr, self.parts@, asg_of(p[i]@), asg_of(p[i + 1]@)));
        }
    }

    proof fn follow(&self, old: &Symbolic<'m>)
        requires
            old.wf(),
            self.mgr.wf(),
            keys_ok(&self.mgr),
            self.mgr.keeps_values(&old.mgr),
            self.flat == old.flat,
            self.leaves == old.leaves,
            self.width == old.width,
            self.domain == old.domain,
            self.init == old.init,
            self.parts == old.parts,
            self.cmd_relations == old.cmd_relations,
        ensures
            self.follows(old),
    {
        crate::reach::set_keeps(&self.mgr, &old.mgr, self.domain, self.width);
        crate::reach::set_keeps(&self.mgr, &old.mgr, self.init, self.width);
        crate::reach::rel_keeps(&self.mgr, &old.mgr, self.parts@, self.width);
        labels_keep(&self.mgr, &old.mgr, self.cmd_relations@);
        let es = self.leaves@;
        assert forall|a: Asg| #[trigger] self.mgr.eval(self.domain, a) == dom(es, false, a) by {
            assert(self.mgr.eval(self.domain, a) == old.mgr.eval(old.domain, a));
        }
        assert forall|a: Asg| #[trigger] self.mgr.eval(self.init, a) == (dom(es, false, a)
            && self.sys().initial(st(es, a))) by {
            assert(self.mgr.eval(self.init, a) == old.mgr.eval(old.init, a));
        }
        assert forall|x: Asg, y: Asg| #[trigger] rel_at(&self.mgr, self.parts@, x, y) == (dom(
            es,
            false,
            x,
        ) && dom(es, false, y) && self.sys().step(st(es, x), st(es, y))) by {
            assert(rel_of(&self.mgr, self.parts@)(x, y) == rel_of(&old.mgr, old.parts@)(x, y));
            assert(rel_at(&old.mgr, old.parts@, x, y) == rel_at(&self.mgr, self.parts@, x, y));
        }
    }

    /// Turns automatic reordering of the variables on or off.
    pub fn set_reorder(&mut self, on: bool)
        requires
            old(self).wf(),
        ensures
            final(self).follows(old(self)),
            final(self).reordering() == on,
    {
        let ghost o = *self;
        self.mgr.set_reorder(on);
        proof {
            self.follow(&o);
        }
    }

    /// Automatic reordering is on.
    pub closed spec fn reordering(&self) -> bool {
        self.mgr.reordering()
    }

    /// An engine that follows another is for the same system.
    pub proof fn kept(&self, new: &Symbolic<'m>)
        requires
            new.follows(self),
        ensures
            new.wf(),
            new.sys() == self.sys(),
    {
    }

    /// A set keeps its states in an engine that follows.
    pub proof fn still(&self, new: &Symbolic<'m>, n: NodeId)
        requires
            new.follows(self),
            self.holds_states(n),
        ensures
            new.holds_states(n),
            forall|s: State| #[trigger] new.member(n, s) == self.member(n, s),
    {
        crate::reach::set_keeps(&new.mgr, &self.mgr, n, self.width);
        assert forall|a: Asg| #[trigger] new.mgr.eval(n, a) == self.mgr.eval(n, a) by {}
        assert forall|s: State| #[trigger] new.member(n, s) == self.member(n, s) by {
            if new.member(n, s) {
                let a = choose|a: Asg|
                    dom(new.leaves@, false, a) && st(new.leaves@, a) == s && #[trigger] new.mgr.eval(n, a);
                assert(self.mgr.eval(n, a));
            }
            if self.member(n, s) {
                let a = choose|a: Asg|
                    dom(self.leaves@, false, a) && st(self.leaves@, a) == s && #[trigger] self.mgr.eval(n, a);
                assert(new.mgr.eval(n, a));
            }
        }
        assert forall|a: Asg, b: Asg|
            dom(new.leaves@, false, a) && dom(new.leaves@, false, b) && st(new.leaves@, a) == st(
                new.leaves@,
                b,
            ) implies #[trigger] new.mgr.eval(n, a) == #[trigger] new.mgr.eval(n, b) by {
            assert(self.mgr.eval(n, a) == self.mgr.eval(n, b));
        }
    }

    /// The set of the initial states.
    pub fn initial_set(&self) -> (r: NodeId)
        requires
            self.wf(),
        ensures
            self.holds_states(r),
            forall|s: State| #[trigger] self.member(r, s) == self.sys().initial(s),
    {
        let ghost es = self.leaves@;
        let ghost sys = self.sys();
        proof {
            assert forall|s: State| #[trigger] self.member(self.init, s) == sys.initial(s) by {
                if sys.initial(s) {
                    let a = asg_of_state(es, s);
                    state_encoded(es, sys, s);
                    assert(self.mgr.eval(self.init, a));
                }
            }
        }
        self.init
    }

    /// The set of the states in which an expression on the current state holds.
    pub fn states_where(&mut self, e: &FExpr) -> (r: Result<NodeId, EngineError>)
        requires
            old(self).wf(),
            unprimed(e.model()),
        ensures
            final(self).follows(old(self)),
            match r {
                Ok(n) => final(self).holds_states(n) && forall|s: State| #[trigger]
                    final(self).member(n, s) == (old(self).sys().is_state(s) && holds_in(e.model(), s)),
                Err(x) => x is Eval && !is_condition(e.model(), old(self).sys().leaves),
            },
    {
        let ghost o = *self;
        let ghost es = self.leaves@;
        let ghost sys = self.sys();
        let r = self.enc_state_set(e);
        proof {
            if r is Ok {
                let n = r->Ok_0;
                assert forall|s: State| #[trigger] self.member(n, s) == (sys.is_state(s) && holds_in(e.model(), s)) by {
                    if self.member(n, s) {
                        let a = choose|a: Asg|
                            dom(es, false, a) && st(es, a) == s && #[trigger] self.mgr.eval(n, a);
                        st_is_state(es, sys, a);
                    }
                    if sys.is_state(s) && holds_in(e.model(), s) {
                        let a = asg_of_state(es, s);
                        state_encoded(es, sys, s);
                        assert(self.mgr.eval(n, a));
                    }
                }
            }
        }
        r
    }

    /// An expression on the current state as the set of states where it holds.
    fn enc_state_set(&mut self, e: &FExpr) -> (r: Result<NodeId, EngineError>)
        requires
            old(self).wf(),
            unprimed(e.model()),
        ensures
            final(self).follows(old(self)),
            final(self).cmd_relations == old(self).cmd_relations,
            match r {
                Ok(n) => is_set(&final(self).mgr, n, old(self).width) && forall|a: Asg| #[trigger]
                    final(self).mgr.eval(n, a) == (dom(old(self).leaves@, false, a) && holds_in(
                        e.model(),
                        st(old(self).leaves@, a),
                    )),
                Err(x) => x is Eval && !is_condition(e.model(), old(self).sys().leaves),
            },
    {
        let ghost o = *self;
        let ghost ts = self.flat.sys().leaves;
        let ghost es = self.leaves@;
        let ghost w = self.width;
        let b = match enc_bool(&mut self.mgr, &self.leaves, e, Ghost(ts)) {
            Ok(n) => n,
            Err(x) => {
                proof {
                    self.follow(&o);
                }
                return Err(x);
            },
        };
        let ghost m1 = self.mgr;
        let r = self.mgr.and(b, self.domain);
        proof {
            self.follow(&o);
            assert forall|a: Asg| #[trigger] self.mgr.eval(r, a) == (dom(es, false, a) && holds_in(
                e.model(),
                st(es, a),
            )) by {
                assert(m1.eval(self.domain, a) == o.mgr.eval(o.domain, a));
                if dom(es, false, a) {
                    cond_now(e.model(), es, a);
                }
            }
            by_state(&self.mgr, r, es, w, |s: State| holds_in(e.model(), s));
        }
        Ok(r)
    }

    /// An expression as a condition on two states.
    pub fn enc_bool(&mut self, e: &FExpr) -> (r: Result<NodeId, EngineError>)
        requires
            old(self).wf(),
        ensures
            final(self).wf(),
            final(self).sys() == old(self).sys(),
            match r {
                Ok(n) => final(self).denotes(n, e.model()),
                Err(x) => x is Eval && !is_condition(e.model(), old(self).sys().leaves),
            },
    {
        let ghost o = *self;
        let ghost ts = self.flat.sys().leaves;
        let r = enc_bool(&mut self.mgr, &self.leaves, e, Ghost(ts));
        proof {
            self.follow(&o);
            if r is Ok {
                let n = r->Ok_0;
                let es = self.leaves@;
                assert forall|x: Asg, y: Asg| dom(es, false, x) && dom(es, false, y) implies
                    #[trigger] self.mgr.eval(n, join(x, y)) == holds(
                    sem(e.model(), step_leaves(st(es, x), st(es, y))),
                ) by {
                    join_leaves(es, x, y);
                }
            }
        }
        r
    }

    /// The node holds of two encoded states exactly where the expression does.
    pub closed spec fn denotes(&self, n: NodeId, e: FE) -> bool {
        &&& self.mgr.valid(n)
        &&& forall|x: Asg, y: Asg|
            dom(self.leaves@, false, x) && dom(self.leaves@, false, y) ==> #[trigger] self.mgr.eval(
                n,
                join(x, y),
            ) == holds(sem(e, step_leaves(st(self.leaves@, x), st(self.leaves@, y))))
    }

    /// Looks for a shortest run that ends in a state of `target`.
    fn search(&mut self, target: NodeId) -> (r: Option<Vec<Vec<Value>>>)
        requires
            old(self).wf(),
            is_set(&old(self).mgr, target, old(self).width),
        ensures
            final(self).follows(old(self)),
            final(self).cmd_relations == old(self).cmd_relations,
            match r {
                Some(p) => old(self).sys().run(states_of(p@)) && old(self).member(
                    target,
                    states_of(p@).last(),
                ) && forall|q: Seq<State>| #[trigger]
                    old(self).sys().run(q) && old(self).member(target, q.last()) ==> p@.len()
                        <= q.len(),
                None => forall|q: Seq<State>| #[trigger]
                    old(self).sys().run(q) ==> !old(self).member(target, q.last()),
            },
    {
        let ghost o = *self;
        let ghost es = self.leaves@;
        let ghost s = set_of(&o.mgr, o.init);
        let ghost r = rel_of(&o.mgr, o.parts@);
        let ghost t = set_of(&o.mgr, target);
        let p = find(&mut self.mgr, &self.parts, self.width, self.init, target, 0, None);
        proof {
            self.follow(&o);
            assert forall|q: Seq<State>| #[trigger] o.sys().run(q) && o.member(target, q.last()) implies exists|
                k: nat,
                y: Asg,
            | #[trigger] first_at(s, r, k, y) && t(y) && k <= q.len() - 1 by {
                o.run_found(target, q);
            }
        }
        match p {
            None => {
                proof {
                    assert forall|q: Seq<State>| #[trigger] o.sys().run(q) implies !o.member(
                        target,
                        q.last(),
                    ) by {
                        if o.member(target, q.last()) {
                            let (k, y) = choose|k: nat, y: Asg| #[trigger]
                                first_at(s, r, k, y) && t(y) && k <= q.len() - 1;
                            assert(first_at(s, r, k, y) && t(y));
                        }
                    }
                }
                None
            },
            Some(p) => {
                proof {
                    assert(s(asg_of(p@[0]@)));
                    assert(o.mgr.eval(o.init, asg_of(p@[0]@)));
                    o.chain_of(p@);
                }
                let states = decode_all(&self.leaves, &p);
                proof {
                    let q = states_of(states@);
                    assert(q.len() == p@.len());
                    assert(q[0] == st(es, asg_of(p@[0]@)));
                    assert(q.last() == st(es, asg_of(p@[p@.len() - 1]@)));
                    assert(t(asg_of(p@[p@.len() - 1]@)));
                    assert(o.mgr.eval(target, asg_of(p@[p@.len() - 1]@)));
                    assert(o.member(target, q.last()));
                    assert forall|z: Seq<State>| #[trigger] o.sys().run(z) && o.member(target, z.last()) implies
                        states@.len() <= z.len() by {
                        let (k, y) = choose|k: nat, y: Asg| #[trigger]
                            first_at(s, r, k, y) && t(y) && k <= z.len() - 1;
                        if k < p@.len() - 1 {
                            assert(!(first_at(s, r, k, y) && t(y)));
                        }
                    }
                }
                Some(states)
            },
        }
    }

    proof fn run_found(&self, target: NodeId, q: Seq<State>)
        requires
            self.wf(),
            is_set(&self.mgr, target, self.width),
            self.sys().run(q),
            self.member(target, q.last()),
        ensures
            exists|k: nat, y: Asg| #[trigger]
                first_at(set_of(&self.mgr, self.init), rel_of(&self.mgr, self.parts@), k, y) && set_of(
                    &self.mgr,
                    target,
                )(y) && k <= q.len() - 1,
    {
        let es = self.leaves@;
        let s = set_of(&self.mgr, self.init);
        let r = rel_of(&self.mgr, self.parts@);
        let y = choose|a: Asg|
            dom(es, false, a) && st(es, a) == q.last() && #[trigger] self.mgr.eval(target, a);
        let z = asg_of_state(es, q[0]);
        state_encoded(es, self.sys(), q[0]);
        assert(self.mgr.eval(self.init, z));
        assert(self.member(self.init, q[0]));
        assert(q.len() == 1 ==> self.mgr.eval(self.init, y));
        self.walk_up(self.init, q, y);
        let k = (q.len() - 1) as nat;
        let j = crate::reach::least_after(s, r, k, y);
        assert(first_at(s, r, j, y));
    }

    /// Checks that `prop` holds in every reachable state. The result is a shortest run to a state
    /// in which it does not, if there is one.
    pub fn check_invariant(&mut self, prop: &FExpr) -> (r: Result<
        Option<Vec<Vec<Value>>>,
        EngineError,
    >)
        requires
            old(self).wf(),
            unprimed(prop.model()),
        ensures
            final(self).wf(),
            final(self).sys() == old(self).sys(),
            match r {
                Ok(None) => forall|s: State| #[trigger]
                    old(self).sys().reachable(s) ==> holds_in(prop.model(), s),
                Ok(Some(p)) => old(self).sys().run(states_of(p@)) && !holds_in(
                    prop.model(),
                    states_of(p@).last(),
                ) && forall|q: Seq<State>| #[trigger]
                    old(self).sys().run(q) && !holds_in(prop.model(), q.last()) ==> p@.len()
                        <= q.len(),
                Err(x) => x is Eval && !is_condition(prop.model(), old(self).sys().leaves),
            },
    {
        let ghost o = *self;
        let ghost es = self.leaves@;
        let ghost e = prop.model();
        let good = match self.enc_state_set(prop) {
            Ok(n) => n,
            Err(x) => {
                return Err(x);
            },
        };
        let ghost o1 = *self;
        let bad = outside(&mut self.mgr, good, Ghost(self.width));
        let ghost o2 = *self;
        proof {
            self.follow(&o1);
            assert forall|s: State| o.sys().is_state(s) implies (#[trigger] o2.member(bad, s)) == !holds_in(e, s) by {
                let a = asg_of_state(es, s);
                state_encoded(es, o.sys(), s);
                assert(o2.mgr.eval(bad, a) == !o1.mgr.eval(good, a));
                if o2.member(bad, s) {
                    let b = choose|b: Asg|
                        dom(es, false, b) && st(es, b) == s && #[trigger] o2.mgr.eval(bad, b);
                    assert(o2.mgr.eval(bad, b) == !o1.mgr.eval(good, b));
                }
                if !holds_in(e, s) {
                    assert(o2.mgr.eval(bad, a));
                }
            }
        }
        let r = self.search(bad);
        proof {
            assert forall|q: Seq<State>| #[trigger] o.sys().run(q) implies o.sys().is_state(q.last()) by {
                run_state(o.sys(), q);
            }
            if r is None {
                assert forall|s: State| #[trigger] o.sys().reachable(s) implies holds_in(e, s) by {
                    let q = choose|q: Seq<State>| #[trigger] o.sys().run(q) && q.last() == s;
                    assert(!o2.member(bad, q.last()));
                }
            } else {
                let p = r->0;
                assert(o.sys().run(states_of(p@)));
                assert(o2.member(bad, states_of(p@).last()));
                assert forall|q: Seq<State>| #[trigger] o.sys().run(q) && !holds_in(e, q.last()) implies p@.len()
                    <= q.len() by {
                    assert(o2.member(bad, q.last()));
                }
            }
        }
        Ok(r)
    }

    /// Checks that every reachable state has a successor. The result is a shortest run to one that
    /// has none, if there is such a state.
    pub fn check_deadlock(&mut self) -> (r: Result<Option<Vec<Vec<Value>>>, EngineError>)
        requires
            old(self).wf(),
        ensures
            final(self).wf(),
            final(self).sys() == old(self).sys(),
            r is Ok,
            match r->Ok_0 {
                None => forall|s: State| #[trigger]
                    old(self).sys().reachable(s) ==> !old(self).sys().stuck(s),
                Some(p) => old(self).sys().run(states_of(p@)) && old(self).sys().stuck(
                    states_of(p@).last(),
                ) && forall|q: Seq<State>| #[trigger]
                    old(self).sys().run(q) && old(self).sys().stuck(q.last()) ==> p@.len()
                        <= q.len(),
            },
    {
        let ghost o = *self;
        let ghost es = self.leaves@;
        let has = preimage(&mut self.mgr, &self.parts, self.width, self.domain);
        let ghost o1 = *self;
        let bad = outside(&mut self.mgr, has, Ghost(self.width));
        let ghost o2 = *self;
        proof {
            o1.follow(&o);
            self.follow(&o);
            assert forall|s: State| o.sys().is_state(s) implies (#[trigger] o2.member(bad, s)) == o.sys().stuck(
                s,
            ) by {
                assert forall|a: Asg| dom(es, false, a) && st(es, a) == s implies #[trigger] o2.mgr.eval(
                    bad,
                    a,
                ) == o.sys().stuck(s) by {
                    assert(o2.mgr.eval(bad, a) == !o1.mgr.eval(has, a));
                    if o1.mgr.eval(has, a) {
                        let y = choose|y: Asg| #[trigger]
                            o.mgr.eval(o.domain, y) && rel_at(&o.mgr, o.parts@, a, y);
                        assert(o.sys().step(s, st(es, y)));
                    }
                    if !o.sys().stuck(s) {
                        let t = choose|t: State| #[trigger] o.sys().step(s, t);
                        let y = asg_of_state(es, t);
                        state_encoded(es, o.sys(), t);
                        assert(o.mgr.eval(o.domain, y));
                        assert(rel_at(&o.mgr, o.parts@, a, y));
                    }
                }
                let a = asg_of_state(es, s);
                state_encoded(es, o.sys(), s);
                assert(o2.mgr.eval(bad, a) == o.sys().stuck(s));
            }
        }
        let r = self.search(bad);
        proof {
            assert forall|q: Seq<State>| #[trigger] o.sys().run(q) implies o.sys().is_state(q.last()) by {
                run_state(o.sys(), q);
            }
            if r is None {
                assert forall|s: State| #[trigger] o.sys().reachable(s) implies !o.sys().stuck(s) by {
                    let q = choose|q: Seq<State>| #[trigger] o.sys().run(q) && q.last() == s;
                    assert(!o2.member(bad, q.last()));
                }
            } else {
                let p = r->0;
                assert(o.sys().run(states_of(p@)));
                assert(o2.member(bad, states_of(p@).last()));
                assert forall|q: Seq<State>| #[trigger] o.sys().run(q) && o.sys().stuck(q.last()) implies p@.len()
                    <= q.len() by {
                    assert(o2.member(bad, q.last()));
                }
            }
        }
        Ok(r)
    }
}

proof fn run_state(sys: Sys, q: Seq<State>)
    requires
        sys.run(q),
    ensures
        sys.is_state(q.last()),
{
    if q.len() > 1 {
        assert(sys.step(q[q.len() - 2], q[(q.len() - 2) + 1]));
    }
}

/// Some run of exactly `k` steps ends in the state.
pub open spec fn run_to(sys: Sys, k: nat, s: State) -> bool {
    exists|q: Seq<State>| #[trigger] sys.run(q) && q.len() == k + 1 && q.last() == s
}

/// The shortest run to the state has `k` steps.
pub open spec fn at_distance(sys: Sys, k: nat, s: State) -> bool {
    run_to(sys, k, s) && forall|j: nat| j < k ==> !#[trigger] run_to(sys, j, s)
}

impl<'m> Symbolic<'m> {
    proof fn after_init(&self, k: nat, y: Asg)
        requires
            self.wf(),
        ensures
            after(set_of(&self.mgr, self.init), rel_of(&self.mgr, self.parts@), k, y) == (dom(
                self.leaves@,
                false,
                y,
            ) && run_to(self.sys(), k, st(self.leaves@, y))),
    {
        let s = set_of(&self.mgr, self.init);
        let r = rel_of(&self.mgr, self.parts@);
        let es = self.leaves@;
        if after(s, r, k, y) {
            self.walk_down(self.init, k, y);
            let q = choose|q: Seq<State>| #[trigger]
                ends(self.sys(), self.states(self.init), k, st(es, y), q);
            assert(self.member(self.init, q[0]));
            assert(self.sys().run(q));
        }
        if dom(es, false, y) && run_to(self.sys(), k, st(es, y)) {
            let q = choose|q: Seq<State>| #[trigger]
                self.sys().run(q) && q.len() == k + 1 && q.last() == st(es, y);
            let z = asg_of_state(es, q[0]);
            state_encoded(es, self.sys(), q[0]);
            assert(self.mgr.eval(self.init, z));
            assert(self.member(self.init, q[0]));
            assert(q.len() == 1 ==> self.mgr.eval(self.init, y));
            self.walk_up(self.init, q, y);
        }
    }

    proof fn first_init(&self, k: nat, y: Asg)
        requires
            self.wf(),
        ensures
            first_at(set_of(&self.mgr, self.init), rel_of(&self.mgr, self.parts@), k, y) == (dom(
                self.leaves@,
                false,
                y,
            ) && at_distance(self.sys(), k, st(self.leaves@, y))),
    {
        let s = set_of(&self.mgr, self.init);
        let r = rel_of(&self.mgr, self.parts@);
        self.after_init(k, y);
        assert forall|j: nat| j < k implies #[trigger] after(s, r, j, y) == (dom(
            self.leaves@,
            false,
            y,
        ) && run_to(self.sys(), j, st(self.leaves@, y))) by {
            self.after_init(j, y);
        }
        if first_at(s, r, k, y) {
            assert forall|j: nat| j < k implies !#[trigger] run_to(
                self.sys(),
                j,
                st(self.leaves@, y),
            ) by {
                assert(!after(s, r, j, y));
            }
        }
    }

    /// The successors of the states of `s`.
    pub fn image(&mut self, s: NodeId) -> (r: NodeId)
        requires
            old(self).wf(),
            old(self).holds_states(s),
        ensures
            final(self).follows(old(self)),
            final(self).holds_states(r),
            forall|t: State| #[trigger]
                final(self).member(r, t) == exists|x: State| #[trigger]
                    old(self).member(s, x) && old(self).sys().step(x, t),
    {
        let ghost o = *self;
        let ghost es = self.leaves@;
        let r = image(&mut self.mgr, &self.parts, self.width, s);
        proof {
            self.follow(&o);
            assert forall|a: Asg, b: Asg| dom(es, false, a) && dom(es, false, b) && st(es, a) == st(
                es,
                b,
            ) implies #[trigger] self.mgr.eval(r, a) == #[trigger] self.mgr.eval(r, b) by {
                assert forall|x: Asg| rel_at(&o.mgr, o.parts@, x, a) == #[trigger] rel_at(
                    &o.mgr,
                    o.parts@,
                    x,
                    b,
                ) by {}
            }
            assert forall|t: State| #[trigger] self.member(r, t) == exists|x: State| #[trigger]
                o.member(s, x) && o.sys().step(x, t) by {
                if self.member(r, t) {
                    let b = choose|b: Asg|
                        dom(es, false, b) && st(es, b) == t && #[trigger] self.mgr.eval(r, b);
                    let a = choose|a: Asg| #[trigger]
                        o.mgr.eval(s, a) && rel_at(&o.mgr, o.parts@, a, b);
                    assert(o.member(s, st(es, a)));
                    assert(o.sys().step(st(es, a), t));
                }
                if exists|x: State| #[trigger] o.member(s, x) && o.sys().step(x, t) {
                    let x = choose|x: State| #[trigger] o.member(s, x) && o.sys().step(x, t);
                    let a = choose|a: Asg|
                        dom(es, false, a) && st(es, a) == x && #[trigger] o.mgr.eval(s, a);
                    let b = asg_of_state(es, t);
                    state_encoded(es, o.sys(), t);
                    assert(o.mgr.eval(s, a) && rel_at(&o.mgr, o.parts@, a, b));
                    assert(self.mgr.eval(r, b));
                }
            }
        }
        r
    }

    /// The states with a successor in `s`.
    pub fn preimage(&mut self, s: NodeId) -> (r: NodeId)
        requires
            old(self).wf(),
            old(self).holds_states(s),
        ensures
            final(self).follows(old(self)),
            final(self).holds_states(r),
            forall|x: State| #[trigger]
                final(self).member(r, x) == exists|t: State| #[trigger]
                    old(self).member(s, t) && old(self).sys().step(x, t),
    {
        let ghost o = *self;
        let ghost es = self.leaves@;
        let r = preimage(&mut self.mgr, &self.parts, self.width, s);
        proof {
            self.follow(&o);
            assert forall|a: Asg, b: Asg| dom(es, false, a) && dom(es, false, b) && st(es, a) == st(
                es,
                b,
            ) implies #[trigger] self.mgr.eval(r, a) == #[trigger] self.mgr.eval(r, b) by {
                assert forall|y: Asg| rel_at(&o.mgr, o.parts@, a, y) == #[trigger] rel_at(
                    &o.mgr,
                    o.parts@,
                    b,
                    y,
                ) by {}
            }
            assert forall|x: State| #[trigger] self.member(r, x) == exists|t: State| #[trigger]
                o.member(s, t) && o.sys().step(x, t) by {
                if self.member(r, x) {
                    let a = choose|a: Asg|
                        dom(es, false, a) && st(es, a) == x && #[trigger] self.mgr.eval(r, a);
                    let b = choose|b: Asg| #[trigger]
                        o.mgr.eval(s, b) && rel_at(&o.mgr, o.parts@, a, b);
                    assert(o.member(s, st(es, b)));
                    assert(o.sys().step(x, st(es, b)));
                }
                if exists|t: State| #[trigger] o.member(s, t) && o.sys().step(x, t) {
                    let t = choose|t: State| #[trigger] o.member(s, t) && o.sys().step(x, t);
                    let b = choose|b: Asg|
                        dom(es, false, b) && st(es, b) == t && #[trigger] o.mgr.eval(s, b);
                    let a = asg_of_state(es, x);
                    state_encoded(es, o.sys(), x);
                    assert(o.mgr.eval(s, b) && rel_at(&o.mgr, o.parts@, a, b));
                    assert(self.mgr.eval(r, a));
                }
            }
        }
        r
    }

    /// The reachable states and the layers of the search: layer `k` holds the states whose
    /// shortest run has `k` steps.
    pub fn reach(&mut self) -> (res: (NodeId, Vec<NodeId>))
        requires
            old(self).wf(),
        ensures
            final(self).follows(old(self)),
            final(self).holds_states(res.0),
            forall|s: State| #[trigger] final(self).member(res.0, s) == old(self).sys().reachable(s),
            forall|i: int| 0 <= i < res.1@.len() ==> final(self).holds_states(#[trigger] res.1@[i]),
            forall|i: int, s: State|
                0 <= i < res.1@.len() ==> #[trigger] final(self).member(res.1@[i], s)
                    == at_distance(old(self).sys(), i as nat, s),
            forall|s: State, k: nat| #[trigger] at_distance(old(self).sys(), k, s) ==> k < res.1@.len(),
    {
        let ghost o = *self;
        let ghost es = self.leaves@;
        let ghost sys = self.flat.sys();
        let ghost s0 = set_of(&o.mgr, o.init);
        let ghost r0 = rel_of(&o.mgr, o.parts@);
        let res = layers(&mut self.mgr, &self.parts, self.width, self.init);
        proof {
            self.follow(&o);
            assert forall|a: Asg, b: Asg| dom(es, false, a) && dom(es, false, b) && st(es, a) == st(
                es,
                b,
            ) implies #[trigger] self.mgr.eval(res.0, a) == #[trigger] self.mgr.eval(res.0, b) by {
                assert forall|k: nat| #[trigger] after(s0, r0, k, a) == after(s0, r0, k, b) by {
                    o.after_init(k, a);
                    o.after_init(k, b);
                }
                if reaches(s0, r0, a) {
                    let k = choose|k: nat| #[trigger] after(s0, r0, k, a);
                    assert(after(s0, r0, k, b));
                }
                if reaches(s0, r0, b) {
                    let k = choose|k: nat| #[trigger] after(s0, r0, k, b);
                    assert(after(s0, r0, k, a));
                }
            }
            assert forall|i: int| 0 <= i < res.1@.len() implies self.holds_states(#[trigger] res.1@[i]) by {
                assert forall|a: Asg, b: Asg| dom(es, false, a) && dom(es, false, b) && st(es, a) == st(
                    es,
                    b,
                ) implies #[trigger] self.mgr.eval(res.1@[i], a) == #[trigger] self.mgr.eval(
                    res.1@[i],
                    b,
                ) by {
                    o.first_init(i as nat, a);
                    o.first_init(i as nat, b);
                }
            }
            assert forall|s: State| #[trigger] self.member(res.0, s) == sys.reachable(s) by {
                if self.member(res.0, s) {
                    let a = choose|a: Asg|
                        dom(es, false, a) && st(es, a) == s && #[trigger] self.mgr.eval(res.0, a);
                    assert(reaches(s0, r0, a));
                    let k = choose|k: nat| #[trigger] after(s0, r0, k, a);
                    o.after_init(k, a);
                    let q = choose|q: Seq<State>| #[trigger]
                        sys.run(q) && q.len() == k + 1 && q.last() == s;
                    assert(sys.run(q) && q.last() == s);
                }
                if sys.reachable(s) {
                    let q = choose|q: Seq<State>| #[trigger] sys.run(q) && q.last() == s;
                    let k = (q.len() - 1) as nat;
                    assert(run_to(sys, k, s));
                    run_state(sys, q);
                    let a = asg_of_state(es, s);
                    state_encoded(es, sys, s);
                    o.after_init(k, a);
                    assert(after(s0, r0, k, a));
                    assert(self.mgr.eval(res.0, a));
                }
            }
            assert forall|i: int, s: State| 0 <= i < res.1@.len() implies #[trigger] self.member(
                res.1@[i],
                s,
            ) == at_distance(sys, i as nat, s) by {
                if self.member(res.1@[i], s) {
                    let a = choose|a: Asg|
                        dom(es, false, a) && st(es, a) == s && #[trigger] self.mgr.eval(res.1@[i], a);
                    o.first_init(i as nat, a);
                }
                if at_distance(sys, i as nat, s) {
                    let q = choose|q: Seq<State>| #[trigger]
                        sys.run(q) && q.len() == i as nat + 1 && q.last() == s;
                    run_state(sys, q);
                    let a = asg_of_state(es, s);
                    state_encoded(es, sys, s);
                    o.first_init(i as nat, a);
                    assert(self.mgr.eval(res.1@[i], a));
                }
            }
            assert forall|s: State, k: nat| #[trigger] at_distance(sys, k, s) implies k < res.1@.len() by {
                let q = choose|q: Seq<State>| #[trigger]
                    sys.run(q) && q.len() == k + 1 && q.last() == s;
                run_state(sys, q);
                let a = asg_of_state(es, s);
                state_encoded(es, sys, s);
                o.first_init(k, a);
                assert(reaches(s0, r0, a)) by {
                    assert(after(s0, r0, k, a));
                }
                assert(self.mgr.eval(res.0, a));
                assert(within(s0, r0, (res.1@.len() - 1) as nat, a));
                let j = choose|j: nat| j <= res.1@.len() - 1 && #[trigger] after(s0, r0, j, a);
                assert(j >= k);
            }
        }
        res
    }

    /// The set of one state.
    pub fn state_bdd(&mut self, state: &Vec<Value>) -> (r: NodeId)
        requires
            old(self).wf(),
            old(self).sys().is_state(models(state@)),
        ensures
            final(self).follows(old(self)),
            final(self).holds_states(r),
            forall|s: State| #[trigger] final(self).member(r, s) == (s == models(state@)),
    {
        let ghost o = *self;
        let ghost es = self.leaves@;
        let ghost want = models(state@);
        proof {
            self.mgr.constants_meaning();
        }
        let mut r = T;
        let mut l: usize = 0;
        assert(state@.len() == es.len());
        while l < self.leaves.len()
            invariant
                l <= es.len(),
                state@.len() == es.len(),
                want == models(state@),
                o.wf(),
                o.sys().is_state(want),
                self.flat == o.flat,
                self.leaves == o.leaves,
                es == o.leaves@,
                self.width == o.width,
                self.domain == o.domain,
                self.init == o.init,
                self.parts == o.parts,
                self.cmd_relations == o.cmd_relations,
                self.mgr.wf(),
                self.mgr.keeps(&o.mgr),
                leaves_ok(es),
                encodes(es, o.sys().leaves),
                self.mgr.valid(r),
                forall|a: Asg| #[trigger]
                    self.mgr.eval(r, a) == (forall|k: int|
                        0 <= k < l ==> leaf_out(#[trigger] es[k], false, a) == Some(want[k])),
            decreases es.len() - l,
        {
            let ghost m0 = self.mgr;
            let ghost r0 = r;
            assert(leaf_ok(es[l as int]));
            assert(leaf_values(o.sys().leaves[l as int]) == Some(models(es[l as int].values@)));
            assert(models(es[l as int].values@).contains(want[l as int]));
            let i: usize = position(&self.leaves[l].values, &state[l]);
            let c = leaf_eq_index(&mut self.mgr, &self.leaves[l], false, i);
            let ghost m1 = self.mgr;
            r = self.mgr.and(r, c);
            proof {
                let e = es[l as int];
                assert forall|a: Asg| #[trigger] self.mgr.eval(r, a) == (forall|k: int|
                    0 <= k < l + 1 ==> leaf_out(#[trigger] es[k], false, a) == Some(want[k])) by {
                    assert(m1.eval(r0, a) == m0.eval(r0, a));
                    assert(m1.eval(c, a) == (code(a, e.base + 0int, e.bits as nat) == i));
                    o.codes_unique(l as int, i as int, want[l as int], a);
                }
            }
            l += 1;
        }
        let ghost m2 = self.mgr;
        proof {
            self.follow(&o);
            assert forall|a: Asg| #[trigger] self.mgr.eval(r, a) == (dom(es, false, a) && st(es, a) == want) by {
                if self.mgr.eval(r, a) {
                    assert forall|k: int| 0 <= k < es.len() implies leaf_out(
                        #[trigger] es[k],
                        false,
                        a,
                    ) is Some by {}
                    assert(st(es, a) =~= want);
                }
                if dom(es, false, a) && st(es, a) == want {
                    assert forall|k: int| 0 <= k < l implies leaf_out(#[trigger] es[k], false, a) == Some(
                        want[k],
                    ) by {
                        assert(st(es, a)[k] == want[k]);
                    }
                }
            }
            by_state(&self.mgr, r, es, self.width, |s: State| s == want);
            assert forall|s: State| #[trigger] self.member(r, s) == (s == want) by {
                if s == want {
                    let a = asg_of_state(es, s);
                    state_encoded(es, o.sys(), s);
                    assert(self.mgr.eval(r, a));
                }
            }
        }
        r
    }

    /// A leaf has a value exactly where it has that value's code.
    proof fn codes_unique(&self, l: int, i: int, v: Val, a: Asg)
        requires
            self.wf(),
            0 <= l < self.leaves@.len(),
            0 <= i < self.leaves@[l].values@.len(),
            self.leaves@[l].values@[i].model() == v,
        ensures
            (leaf_out(self.leaves@[l], false, a) == Some(v)) == (code(
                a,
                self.leaves@[l].base + 0int,
                self.leaves@[l].bits as nat,
            ) == i),
    {
        let e = self.leaves@[l];
        let t = self.sys().leaves[l];
        let c = code(a, e.base + 0int, e.bits as nat) as int;
        assert(leaf_values(t) == Some(models(e.values@)));
        assert(models(e.values@).len() == e.values@.len());
        assert(models(e.values@)[i] == v);
        if c < e.values@.len() {
            assert(models(e.values@)[c] == e.values@[c].model());
            assert(leaf_values(t)->0[c] == crate::fexpr::leaf_value(t, c));
            assert(leaf_values(t)->0[i] == crate::fexpr::leaf_value(t, i));
        }
    }

    /// The number of leaves.
    pub fn leaf_count(&self) -> (r: usize)
        requires
            self.wf(),
        ensures
            r == self.sys().leaves.len(),
    {
        self.leaves.len()
    }

    /// The state that an assignment of bits encodes.
    pub closed spec fn encoded(&self, c: Map<u32, bool>) -> Option<State> {
        if dom(self.leaves@, false, asg_of(c)) {
            Some(st(self.leaves@, asg_of(c)))
        } else {
            None
        }
    }

    /// The values of the leaves under an assignment of bits that encodes a state.
    pub fn decode_state(&self, a: &Cube) -> (r: Vec<Value>)
        requires
            self.wf(),
            self.encoded(a@) is Some,
        ensures
            Some(models(r@)) == self.encoded(a@),
    {
        decode(&self.leaves, a)
    }

    /// Looks for a shortest path from a state of `start` to a state of `target`, at a distance
    /// from `start` of at least `min_depth` and at most `max_depth`.
    pub fn find_path(
        &mut self,
        start: NodeId,
        target: NodeId,
        min_depth: usize,
        max_depth: Option<usize>,
    ) -> (r: Option<Vec<Vec<Value>>>)
        requires
            old(self).wf(),
            old(self).holds_states(start),
            old(self).holds_states(target),
        ensures
            final(self).follows(old(self)),
            match r {
                Some(p) => {
                    &&& p@.len() > min_depth
                    &&& max_depth matches Some(m) ==> p@.len() - 1 <= m
                    &&& old(self).member(start, states_of(p@)[0])
                    &&& old(self).sys().chain(states_of(p@))
                    &&& old(self).member(target, states_of(p@).last())
                    &&& forall|i: int|
                        0 <= i < p@.len() ==> old(self).sys().is_state(#[trigger] states_of(p@)[i])
                    &&& nearest(
                        old(self).sys(),
                        old(self).states(start),
                        (p@.len() - 1) as nat,
                        states_of(p@).last(),
                    )
                    &&& forall|k: nat, t: State|
                        min_depth <= k < p@.len() - 1 && #[trigger] nearest(
                            old(self).sys(),
                            old(self).states(start),
                            k,
                            t,
                        ) ==> !old(self).member(target, t)
                },
                None => {
                    &&& forall|k: nat, t: State|
                        min_depth <= k && (max_depth matches Some(m) ==> k <= m) && #[trigger] nearest(
                            old(self).sys(),
                            old(self).states(start),
                            k,
                            t,
                        ) ==> !old(self).member(target, t)
                    &&& min_depth == 0 ==> forall|q: Seq<State>|
                        q.len() > 0 && (max_depth matches Some(m) ==> q.len() - 1 <= m) && #[trigger] old(
                            self).sys().chain(q) && old(self).member(start, q[0]) ==> !old(self).member(
                            target,
                            q.last(),
                        )
                },
            },
    {
        let ghost o = *self;
        let ghost es = self.leaves@;
        let within_domain = meet(&mut self.mgr, start, self.domain, Ghost(self.width));
        let ghost o1 = *self;
        proof {
            self.follow(&o);
            crate::reach::set_keeps(&o1.mgr, &o.mgr, target, o.width);
        }
        let ghost s = set_of(&o1.mgr, within_domain);
        let ghost r = rel_of(&o1.mgr, o1.parts@);
        let ghost t = set_of(&o1.mgr, target);
        let p = find(
            &mut self.mgr,
            &self.parts,
            self.width,
            within_domain,
            target,
            min_depth,
            max_depth,
        );
        proof {
            self.follow(&o1);
            o1.follows_trans(&o, self);
        }
        proof {
            o1.same_states(&o, start, within_domain);
        }
        match p {
            None => {
                proof {
                    assert forall|k: nat, x: State|
                        min_depth <= k && (max_depth matches Some(m) ==> k <= m) && #[trigger] nearest(
                            o.sys(),
                            o.states(start),
                            k,
                            x,
                        ) implies !o.member(target, x) by {
                        if o.member(target, x) {
                            let y = o1.near_first(&o, start, within_domain, target, k, x);
                            assert(first_at(s, r, k, y) && t(y));
                        }
                    }
                    if min_depth == 0 {
                        assert forall|q: Seq<State>| q.len() > 0 && (max_depth matches Some(m)
                            ==> q.len() - 1 <= m) && #[trigger] o.sys().chain(q) && o.member(
                            start,
                            q[0],
                        ) implies !o.member(target, q.last()) by {
                            if o.member(target, q.last()) {
                                o1.path_found(&o, start, within_domain, target, q);
                                let (k, y) = choose|k: nat, y: Asg| #[trigger]
                                    first_at(s, r, k, y) && t(y) && k <= q.len() - 1;
                                assert(first_at(s, r, k, y) && t(y));
                            }
                        }
                    }
                }
                None
            },
            Some(p) => {
                proof {
                    assert(s(asg_of(p@[0]@)));
                    assert(o1.mgr.eval(within_domain, asg_of(p@[0]@)));
                    assert(o.mgr.eval(start, asg_of(p@[0]@)) && o.mgr.eval(
                        o.domain,
                        asg_of(p@[0]@),
                    ));
                    o1.chain_of(p@);
                }
                let states = decode_all(&self.leaves, &p);
                proof {
                    let q = states_of(states@);
                    assert(q[0] == st(es, asg_of(p@[0]@)));
                    assert(q.last() == st(es, asg_of(p@[p@.len() - 1]@)));
                    assert(t(asg_of(p@[p@.len() - 1]@)));
                    assert(o1.mgr.eval(target, asg_of(p@[p@.len() - 1]@)));
                    assert(o.mgr.eval(target, asg_of(p@[p@.len() - 1]@)));
                    assert(o.member(target, q.last()));
                    assert(o.member(start, q[0]));
                    assert forall|i: int| 0 <= i < p@.len() implies o.sys().is_state(#[trigger] q[i]) by {
                        st_is_state(es, o.sys(), asg_of(p@[i]@));
                    }
                    o1.first_near(within_domain, (p@.len() - 1) as nat, asg_of(p@[p@.len() - 1]@));
                    assert forall|k: nat, x: State|
                        min_depth <= k < p@.len() - 1 && #[trigger] nearest(
                            o.sys(),
                            o.states(start),
                            k,
                            x,
                        ) implies !o.member(target, x) by {
                        if o.member(target, x) {
                            let y = o1.near_first(&o, start, within_domain, target, k, x);
                            assert(first_at(s, r, k, y) && t(y));
                        }
                    }
                }
                Some(states)
            },
        }
    }

    /// A set has the states that it had, within the domain.
    proof fn same_states(&self, o: &Symbolic<'m>, start: NodeId, s1: NodeId)
        requires
            self.follows(o),
            o.wf(),
            is_set(&self.mgr, s1, self.width),
            o.holds_states(start),
            forall|x: Asg| #[trigger]
                self.mgr.eval(s1, x) == (o.mgr.eval(start, x) && o.mgr.eval(o.domain, x)),
        ensures
            self.holds_states(s1),
            forall|a: Asg| #[trigger] self.mgr.eval(s1, a) ==> dom(self.leaves@, false, a),
            self.states(s1) == o.states(start),
    {
        assert forall|a: Asg| #[trigger] o.mgr.eval(o.domain, a) == dom(o.leaves@, false, a) by {}
        assert forall|t: State| #[trigger] self.member(s1, t) == o.member(start, t) by {
            if self.member(s1, t) {
                let a = choose|a: Asg|
                    dom(self.leaves@, false, a) && st(self.leaves@, a) == t && #[trigger] self.mgr.eval(s1, a);
                assert(o.mgr.eval(start, a));
            }
            if o.member(start, t) {
                let a = choose|a: Asg|
                    dom(o.leaves@, false, a) && st(o.leaves@, a) == t && #[trigger] o.mgr.eval(start, a);
                assert(self.mgr.eval(s1, a));
            }
        }
        assert(self.states(s1) =~= o.states(start));
        assert forall|a: Asg, b: Asg|
            dom(self.leaves@, false, a) && dom(self.leaves@, false, b) && st(self.leaves@, a) == st(
                self.leaves@,
                b,
            ) implies #[trigger] self.mgr.eval(s1, a) == #[trigger] self.mgr.eval(s1, b) by {
            assert(o.mgr.eval(start, a) == o.mgr.eval(start, b));
        }
    }

    /// The distance of an assignment is that of its state.
    proof fn first_near(&self, n: NodeId, k: nat, y: Asg)
        requires
            self.wf(),
            self.holds_states(n),
            forall|a: Asg| #[trigger] self.mgr.eval(n, a) ==> dom(self.leaves@, false, a),
            dom(self.leaves@, false, y),
        ensures
            first_at(set_of(&self.mgr, n), rel_of(&self.mgr, self.parts@), k, y) == nearest(
                self.sys(),
                self.states(n),
                k,
                st(self.leaves@, y),
            ),
    {
        let s = set_of(&self.mgr, n);
        let r = rel_of(&self.mgr, self.parts@);
        let t = st(self.leaves@, y);
        assert forall|j: nat| #[trigger] after(s, r, j, y) == chain_to(self.sys(), self.states(n), j, t) by {
            if after(s, r, j, y) {
                self.walk_down(n, j, y);
            }
            if chain_to(self.sys(), self.states(n), j, t) {
                let q = choose|q: Seq<State>| #[trigger] ends(self.sys(), self.states(n), j, t, q);
                assert(self.member(n, q[0]));
                if q.len() == 1 {
                    let a = choose|a: Asg|
                        dom(self.leaves@, false, a) && st(self.leaves@, a) == t && #[trigger] self.mgr.eval(n, a);
                    assert(self.mgr.eval(n, a) == self.mgr.eval(n, y));
                }
                self.walk_up(n, q, y);
            }
        }
        assert forall|j: nat| #[trigger] chain_to(self.sys(), self.states(n), j, t) == after(s, r, j, y) by {
            assert(after(s, r, j, y) == chain_to(self.sys(), self.states(n), j, t));
        }
    }

    /// A state of a set at a distance is encoded by an assignment at that distance.
    proof fn near_first(
        &self,
        o: &Symbolic<'m>,
        start: NodeId,
        s1: NodeId,
        target: NodeId,
        k: nat,
        x: State,
    ) -> (y: Asg)
        requires
            self.follows(o),
            o.wf(),
            self.holds_states(s1),
            forall|a: Asg| #[trigger] self.mgr.eval(s1, a) ==> dom(self.leaves@, false, a),
            self.states(s1) == o.states(start),
            o.holds_states(target),
            nearest(o.sys(), o.states(start), k, x),
            o.member(target, x),
        ensures
            first_at(set_of(&self.mgr, s1), rel_of(&self.mgr, self.parts@), k, y),
            set_of(&self.mgr, target)(y),
    {
        let y = choose|a: Asg|
            dom(o.leaves@, false, a) && st(o.leaves@, a) == x && #[trigger] o.mgr.eval(target, a);
        self.first_near(s1, k, y);
        assert(self.mgr.eval(target, y) == o.mgr.eval(target, y));
        y
    }

    proof fn follows_trans(&self, old: &Symbolic<'m>, new: &Symbolic<'m>)
        requires
            self.follows(old),
            new.follows(self),
        ensures
            new.follows(old),
    {
    }

    proof fn path_found(
        &self,
        o: &Symbolic<'m>,
        start: NodeId,
        s1: NodeId,
        target: NodeId,
        q: Seq<State>,
    )
        requires
            self.follows(o),
            o.wf(),
            is_set(&self.mgr, s1, self.width),
            o.holds_states(target),
            o.holds_states(start),
            forall|x: Asg| #[trigger]
                self.mgr.eval(s1, x) == (o.mgr.eval(start, x) && o.mgr.eval(o.domain, x)),
            q.len() > 0,
            o.sys().chain(q),
            o.member(start, q[0]),
            o.member(target, q.last()),
        ensures
            exists|k: nat, y: Asg| #[trigger]
                first_at(set_of(&self.mgr, s1), rel_of(&self.mgr, self.parts@), k, y) && set_of(
                    &self.mgr,
                    target,
                )(y) && k <= q.len() - 1,
    {
        let es = self.leaves@;
        let s = set_of(&self.mgr, s1);
        let r = rel_of(&self.mgr, self.parts@);
        let x = choose|a: Asg|
            dom(es, false, a) && st(es, a) == q[0] && #[trigger] o.mgr.eval(start, a);
        assert(self.mgr.eval(s1, x));
        assert(self.member(s1, q[0]));
        let y0 = choose|a: Asg|
            dom(es, false, a) && st(es, a) == q.last() && #[trigger] o.mgr.eval(target, a);
        if q.len() == 1 {
            assert(o.mgr.eval(start, x) == o.mgr.eval(start, y0));
            assert(self.mgr.eval(s1, y0));
        }
        self.walk_up(s1, q, y0);
        let k = (q.len() - 1) as nat;
        let j = crate::reach::least_after(s, r, k, y0);
        assert(first_at(s, r, j, y0));
        assert(self.mgr.eval(target, y0) == o.mgr.eval(target, y0));
    }
}

/// The position of a value that is in the list.
fn position(vs: &Vec<Value>, v: &Value) -> (r: usize)
    requires
        models(vs@).contains(v.model()),
    ensures
        r < vs@.len(),
        vs@[r as int].model() == v.model(),
{
    let mut i: usize = 0;
    while i < vs.len()
        invariant
            i <= vs@.len(),
            models(vs@).contains(v.model()),
            forall|k: int| 0 <= k < i ==> vs@[k].model() != v.model(),
        decreases vs.len() - i,
    {
        if vs[i].same(v) {
            return i;
        }
        i += 1;
    }
    proof {
        let k = choose|k: int| 0 <= k < models(vs@).len() && models(vs@)[k] == v.model();
        assert(vs@[k].model() == v.model());
    }
    0
}

impl<'m> Symbolic<'m> {
    /// The node is exactly the set of encoded states in `p`.
    spec fn is_sp(&self, n: NodeId, p: SP) -> bool {
        &&& is_set(&self.mgr, n, self.width)
        &&& forall|a: Asg| #[trigger]
            self.mgr.eval(n, a) == (dom(self.leaves@, false, a) && p(st(self.leaves@, a)))
    }

    proof fn sp_keeps(&self, old: &Symbolic<'m>, n: NodeId, p: SP)
        requires
            self.follows(old),
            old.is_sp(n, p),
        ensures
            self.is_sp(n, p),
    {
        crate::reach::set_keeps(&self.mgr, &old.mgr, n, self.width);
        assert forall|a: Asg| #[trigger] self.mgr.eval(n, a) == (dom(self.leaves@, false, a) && p(
            st(self.leaves@, a),
        )) by {
            assert(self.mgr.eval(n, a) == old.mgr.eval(n, a));
        }
    }

    /// The complement among the encoded states.
    fn sp_complement(&mut self, n: NodeId, Ghost(p): Ghost<SP>) -> (r: NodeId)
        requires
            old(self).wf(),
            old(self).is_sp(n, p),
        ensures
            final(self).follows(old(self)),
            final(self).cmd_relations == old(self).cmd_relations,
            final(self).is_sp(r, sp_not(p)),
    {
        let ghost o = *self;
        let neg = outside(&mut self.mgr, n, Ghost(self.width));
        let ghost m1 = self.mgr;
        proof {
            self.follow(&o);
        }
        let r = meet(&mut self.mgr, neg, self.domain, Ghost(self.width));
        proof {
            self.follow(&o);
            assert forall|a: Asg| #[trigger] self.mgr.eval(r, a) == (dom(self.leaves@, false, a)
                && sp_not(p)(st(self.leaves@, a))) by {
                assert(m1.eval(neg, a) == !o.mgr.eval(n, a));
                assert(m1.eval(self.domain, a) == o.mgr.eval(o.domain, a));
            }
        }
        r
    }

    fn sp_meet(&mut self, x: NodeId, y: NodeId, Ghost(p): Ghost<SP>, Ghost(q): Ghost<SP>) -> (r:
        NodeId)
        requires
            old(self).wf(),
            old(self).is_sp(x, p),
            old(self).is_sp(y, q),
        ensures
            final(self).follows(old(self)),
            final(self).cmd_relations == old(self).cmd_relations,
            final(self).is_sp(r, sp_and(p, q)),
    {
        let ghost o = *self;
        let r = meet(&mut self.mgr, x, y, Ghost(self.width));
        proof {
            self.follow(&o);
        }
        r
    }

    fn sp_union(&mut self, x: NodeId, y: NodeId, Ghost(p): Ghost<SP>, Ghost(q): Ghost<SP>) -> (r:
        NodeId)
        requires
            old(self).wf(),
            old(self).is_sp(x, p),
            old(self).is_sp(y, q),
        ensures
            final(self).follows(old(self)),
            final(self).cmd_relations == old(self).cmd_relations,
            final(self).is_sp(r, sp_or(p, q)),
    {
        let ghost o = *self;
        let r = union(&mut self.mgr, x, y, Ghost(self.width));
        proof {
            self.follow(&o);
        }
        r
    }

    /// The states with a step into the set.
    fn sp_pre(&mut self, n: NodeId, Ghost(p): Ghost<SP>) -> (r: NodeId)
        requires
            old(self).wf(),
            old(self).is_sp(n, p),
        ensures
            final(self).follows(old(self)),
            final(self).cmd_relations == old(self).cmd_relations,
            final(self).is_sp(r, |s: State| sp_ex(old(self).sys(), p, s)),
    {
        let ghost o = *self;
        let ghost es = self.leaves@;
        let ghost sys = self.flat.sys();
        let r = preimage(&mut self.mgr, &self.parts, self.width, n);
        proof {
            self.follow(&o);
            assert forall|a: Asg| #[trigger] self.mgr.eval(r, a) == (dom(es, false, a) && sp_ex(
                sys,
                p,
                st(es, a),
            )) by {
                if self.mgr.eval(r, a) {
                    let b = choose|b: Asg| #[trigger]
                        o.mgr.eval(n, b) && rel_at(&o.mgr, o.parts@, a, b);
                    assert(sys.step(st(es, a), st(es, b)));
                }
                if dom(es, false, a) && sp_ex(sys, p, st(es, a)) {
                    let t = choose|t: State| #[trigger] sys.step(st(es, a), t) && p(t);
                    let b = asg_of_state(es, t);
                    state_encoded(es, sys, t);
                    assert(o.mgr.eval(n, b) && rel_at(&o.mgr, o.parts@, a, b));
                }
            }
        }
        r
    }

    proof fn until_states(&self, f: NodeId, g: NodeId, p: SP, q: SP, k: nat, x: Asg)
        requires
            self.wf(),
            self.is_sp(f, p),
            self.is_sp(g, q),
        ensures
            crate::reach::until(
                set_of(&self.mgr, f),
                set_of(&self.mgr, g),
                rel_of(&self.mgr, self.parts@),
                k,
                x,
            ) == (dom(self.leaves@, false, x) && sp_until(
                self.sys(),
                p,
                q,
                k,
                st(self.leaves@, x),
            )),
        decreases k,
    {
        let ff = set_of(&self.mgr, f);
        let gg = set_of(&self.mgr, g);
        let r = rel_of(&self.mgr, self.parts@);
        let es = self.leaves@;
        let sys = self.sys();
        assert(gg(x) == self.mgr.eval(g, x));
        assert(ff(x) == self.mgr.eval(f, x));
        if k > 0 {
            let j = (k - 1) as nat;
            let h = crate::reach::until_set(ff, gg, r, j);
            let hs = sp_until_set(sys, p, q, j);
            if crate::reach::until(ff, gg, r, k, x) {
                let y = choose|y: Asg| #[trigger] h(y) && r(x, y);
                self.until_states(f, g, p, q, j, y);
                assert(crate::reach::until(ff, gg, r, j, y));
                assert(rel_at(&self.mgr, self.parts@, x, y));
                assert(sys.step(st(es, x), st(es, y)) && hs(st(es, y)));
            }
            if dom(es, false, x) && sp_until(sys, p, q, k, st(es, x)) {
                let t = choose|t: State| #[trigger] sys.step(st(es, x), t) && hs(t);
                let y = asg_of_state(es, t);
                state_encoded(es, sys, t);
                self.until_states(f, g, p, q, j, y);
                assert(sp_until(sys, p, q, j, t));
                assert(rel_at(&self.mgr, self.parts@, x, y));
                assert(h(y) && r(x, y));
            }
        }
    }

    /// The states from which `q` is reached through `p`.
    fn sp_reach(&mut self, f: NodeId, g: NodeId, Ghost(p): Ghost<SP>, Ghost(q): Ghost<SP>) -> (r:
        NodeId)
        requires
            old(self).wf(),
            old(self).is_sp(f, p),
            old(self).is_sp(g, q),
        ensures
            final(self).follows(old(self)),
            final(self).cmd_relations == old(self).cmd_relations,
            final(self).is_sp(r, |s: State| sp_eu(old(self).sys(), p, q, s)),
    {
        let ghost o = *self;
        let ghost es = self.leaves@;
        let ghost sys = self.flat.sys();
        let ghost ff = set_of(&o.mgr, f);
        let ghost gg = set_of(&o.mgr, g);
        let ghost rr = rel_of(&o.mgr, o.parts@);
        let r = eu(&mut self.mgr, &self.parts, self.width, f, g);
        proof {
            self.follow(&o);
            assert forall|a: Asg| #[trigger] self.mgr.eval(r, a) == (dom(es, false, a) && sp_eu(
                sys,
                p,
                q,
                st(es, a),
            )) by {
                if eventually(ff, gg, rr, a) {
                    let k = choose|k: nat| #[trigger] crate::reach::until(ff, gg, rr, k, a);
                    o.until_states(f, g, p, q, k, a);
                    assert(sp_until(sys, p, q, k, st(es, a)));
                }
                if dom(es, false, a) && sp_eu(sys, p, q, st(es, a)) {
                    let k = choose|k: nat| #[trigger] sp_until(sys, p, q, k, st(es, a));
                    o.until_states(f, g, p, q, k, a);
                    assert(crate::reach::until(ff, gg, rr, k, a));
                }
            }
        }
        r
    }

    /// The states from which an endless path through `p` starts.
    fn sp_stay(&mut self, f: NodeId, Ghost(p): Ghost<SP>) -> (r: NodeId)
        requires
            old(self).wf(),
            old(self).is_sp(f, p),
        ensures
            final(self).follows(old(self)),
            final(self).cmd_relations == old(self).cmd_relations,
            final(self).is_sp(r, |s: State| sp_eg(old(self).sys(), p, s)),
    {
        let ghost o = *self;
        let ghost es = self.leaves@;
        let ghost sys = self.flat.sys();
        let ghost ff = set_of(&o.mgr, f);
        let ghost rr = rel_of(&o.mgr, o.parts@);
        let r = eg(&mut self.mgr, &self.parts, self.width, f);
        proof {
            self.follow(&o);
            assert forall|a: Asg| #[trigger] self.mgr.eval(r, a) == (dom(es, false, a) && sp_eg(
                sys,
                p,
                st(es, a),
            )) by {
                if forever(ff, rr, a) {
                    let path = choose|path: spec_fn(nat) -> Asg| #[trigger]
                        crate::reach::endless(ff, rr, path) && path(0) == a;
                    let sp = |i: nat| st(es, path(i));
                    assert forall|i: nat| p(#[trigger] sp(i)) by {
                        assert(ff(path(i)));
                        assert(o.mgr.eval(f, path(i)));
                    }
                    assert forall|i: nat| #[trigger] sp_hops(sys, sp, i) by {
                        assert(crate::reach::hops(rr, path, i));
                        assert(rel_at(&o.mgr, o.parts@, path(i), path((i + 1) as nat)));
                    }
                    assert(sp_endless(sys, p, sp) && sp(0) == st(es, a));
                    assert(ff(path(0)));
                    assert(o.mgr.eval(f, a));
                }
                if dom(es, false, a) && sp_eg(sys, p, st(es, a)) {
                    let sp = choose|sp: Trace| #[trigger]
                        sp_endless(sys, p, sp) && sp(0) == st(es, a);
                    let path = |i: nat|
                        if i == 0 {
                            a
                        } else {
                            asg_of_state(es, sp(i))
                        };
                    assert forall|i: nat| ff(#[trigger] path(i)) by {
                        assert(p(sp(i)) && sp_hops(sys, sp, i));
                        state_encoded(es, sys, sp(i));
                        assert(o.mgr.eval(f, path(i)));
                    }
                    assert forall|i: nat| #[trigger] crate::reach::hops(rr, path, i) by {
                        assert(sp_hops(sys, sp, i));
                        state_encoded(es, sys, sp(i));
                        state_encoded(es, sys, sp((i + 1) as nat));
                        assert(rel_at(&o.mgr, o.parts@, path(i), path((i + 1) as nat)));
                    }
                    assert(crate::reach::endless(ff, rr, path) && path(0) == a);
                }
            }
        }
        r
    }

    proof fn sp_ext(&self, n: NodeId, p: SP, q: SP)
        requires
            self.is_sp(n, p),
            forall|s: State| #[trigger] p(s) == q(s),
        ensures
            self.is_sp(n, q),
    {
        assert forall|a: Asg| #[trigger] self.mgr.eval(n, a) == (dom(self.leaves@, false, a) && q(
            st(self.leaves@, a),
        )) by {
            assert(p(st(self.leaves@, a)) == q(st(self.leaves@, a)));
        }
    }

    /// The states in which a branching-time formula holds.
    fn ctl_sat(&mut self, f: &TFormula) -> (r: Result<NodeId, EngineError>)
        requires
            old(self).wf(),
            atoms_plain(f.model()),
        ensures
            final(self).follows(old(self)),
            final(self).cmd_relations == old(self).cmd_relations,
            match r {
                Ok(n) => final(self).is_sp(n, ctl(old(self).sys(), f.model())) && !has_linear(
                    f.model(),
                ),
                Err(x) => x is Eval && (has_linear(f.model()) || !atoms_typed(
                    f.model(),
                    old(self).sys().leaves,
                )),
            },
        decreases f,
    {
        let ghost o = *self;
        let ghost sys = self.flat.sys();
        proof {
            assert(self.is_sp(self.domain, sp_all()));
        }
        match f {
            TFormula::Atom(e) => {
                let r = self.enc_state_set(e);
                match r {
                    Ok(n) => {
                        Ok(n)
                    },
                    Err(x) => Err(x),
                }
            },
            TFormula::Not(a) => {
                let x = self.ctl_sat(a)?;
                let ghost p = ctl(sys, a.model());
                Ok(self.sp_complement(x, Ghost(p)))
            },
            TFormula::And(a, b) => {
                let ghost p = ctl(sys, a.model());
                let ghost q = ctl(sys, b.model());
                let x = self.ctl_sat(a)?;
                let ghost o1 = *self;
                let y = self.ctl_sat(b)?;
                proof {
                    self.sp_keeps(&o1, x, p);
                }
                Ok(self.sp_meet(x, y, Ghost(p), Ghost(q)))
            },
            TFormula::Or(a, b) => {
                let ghost p = ctl(sys, a.model());
                let ghost q = ctl(sys, b.model());
                let x = self.ctl_sat(a)?;
                let ghost o1 = *self;
                let y = self.ctl_sat(b)?;
                proof {
                    self.sp_keeps(&o1, x, p);
                }
                Ok(self.sp_union(x, y, Ghost(p), Ghost(q)))
            },
            TFormula::EX(a) => {
                let ghost p = ctl(sys, a.model());
                let x = self.ctl_sat(a)?;
                Ok(self.sp_pre(x, Ghost(p)))
            },
            TFormula::AX(a) => {
                let ghost p = ctl(sys, a.model());
                let x = self.ctl_sat(a)?;
                let nx = self.sp_complement(x, Ghost(p));
                let ex = self.sp_pre(nx, Ghost(sp_not(p)));
                let ghost h = |s: State| sp_ex(sys, sp_not(p), s);
                let r = self.sp_complement(ex, Ghost(h));
                proof {
                    self.sp_ext(r, sp_not(h), ctl(sys, f.model()));
                }
                Ok(r)
            },
            TFormula::EG(a) => {
                let ghost p = ctl(sys, a.model());
                let x = self.ctl_sat(a)?;
                Ok(self.sp_stay(x, Ghost(p)))
            },
            TFormula::EF(a) => {
                let ghost p = ctl(sys, a.model());
                let x = self.ctl_sat(a)?;
                let d = self.domain;
                assert(self.is_sp(d, sp_all()));
                Ok(self.sp_reach(d, x, Ghost(sp_all()), Ghost(p)))
            },
            TFormula::AF(a) => {
                let ghost p = ctl(sys, a.model());
                let x = self.ctl_sat(a)?;
                let nx = self.sp_complement(x, Ghost(p));
                let e = self.sp_stay(nx, Ghost(sp_not(p)));
                let ghost h = |s: State| sp_eg(sys, sp_not(p), s);
                let r = self.sp_complement(e, Ghost(h));
                proof {
                    self.sp_ext(r, sp_not(h), ctl(sys, f.model()));
                }
                Ok(r)
            },
            TFormula::AG(a) => {
                let ghost p = ctl(sys, a.model());
                let x = self.ctl_sat(a)?;
                let nx = self.sp_complement(x, Ghost(p));
                let d = self.domain;
                assert(self.is_sp(d, sp_all()));
                let e = self.sp_reach(d, nx, Ghost(sp_all()), Ghost(sp_not(p)));
                let ghost h = |s: State| sp_eu(sys, sp_all(), sp_not(p), s);
                let r = self.sp_complement(e, Ghost(h));
                proof {
                    self.sp_ext(r, sp_not(h), ctl(sys, f.model()));
                }
                Ok(r)
            },
            TFormula::EU(a, b) => {
                let ghost p = ctl(sys, a.model());
                let ghost q = ctl(sys, b.model());
                let x = self.ctl_sat(a)?;
                let ghost o1 = *self;
                let y = self.ctl_sat(b)?;
                proof {
                    self.sp_keeps(&o1, x, p);
                }
                Ok(self.sp_reach(x, y, Ghost(p), Ghost(q)))
            },
            TFormula::AU(a, b) => {
                let ghost p = ctl(sys, a.model());
                let ghost q = ctl(sys, b.model());
                let x = self.ctl_sat(a)?;
                let ghost o1 = *self;
                let y = self.ctl_sat(b)?;
                let ghost o2 = *self;
                proof {
                    self.sp_keeps(&o1, x, p);
                }
                let nx = self.sp_complement(x, Ghost(p));
                let ghost o3 = *self;
                proof {
                    self.sp_keeps(&o2, y, q);
                }
                let ny = self.sp_complement(y, Ghost(q));
                let ghost o4 = *self;
                proof {
                    self.sp_keeps(&o3, nx, sp_not(p));
                }
                let both = self.sp_meet(nx, ny, Ghost(sp_not(p)), Ghost(sp_not(q)));
                let ghost o5 = *self;
                proof {
                    self.sp_keeps(&o4, ny, sp_not(q));
                }
                let ghost nn = sp_and(sp_not(p), sp_not(q));
                let e1 = self.sp_reach(ny, both, Ghost(sp_not(q)), Ghost(nn));
                let ghost o6 = *self;
                proof {
                    self.sp_keeps(&o5, ny, sp_not(q));
                }
                let e2 = self.sp_stay(ny, Ghost(sp_not(q)));
                let ghost h1 = |s: State| sp_eu(sys, sp_not(q), nn, s);
                let ghost h2 = |s: State| sp_eg(sys, sp_not(q), s);
                proof {
                    self.sp_keeps(&o6, e1, h1);
                }
                let bad = self.sp_union(e1, e2, Ghost(h1), Ghost(h2));
                let r = self.sp_complement(bad, Ghost(sp_or(h1, h2)));
                proof {
                    self.sp_ext(r, sp_not(sp_or(h1, h2)), ctl(sys, f.model()));
                }
                Ok(r)
            },
            TFormula::ER(a, b) => {
                let ghost p = ctl(sys, a.model());
                let ghost q = ctl(sys, b.model());
                let x = self.ctl_sat(a)?;
                let ghost o1 = *self;
                let y = self.ctl_sat(b)?;
                let ghost o2 = *self;
                proof {
                    self.sp_keeps(&o1, x, p);
                }
                let both = self.sp_meet(x, y, Ghost(p), Ghost(q));
                let ghost o3 = *self;
                proof {
                    self.sp_keeps(&o2, y, q);
                }
                let ghost pq = sp_and(p, q);
                let e1 = self.sp_reach(y, both, Ghost(q), Ghost(pq));
                let ghost o4 = *self;
                proof {
                    self.sp_keeps(&o3, y, q);
                }
                let e2 = self.sp_stay(y, Ghost(q));
                let ghost h1 = |s: State| sp_eu(sys, q, pq, s);
                let ghost h2 = |s: State| sp_eg(sys, q, s);
                proof {
                    self.sp_keeps(&o4, e1, h1);
                }
                let r = self.sp_union(e1, e2, Ghost(h1), Ghost(h2));
                proof {
                    assert(sp_not(sp_not(q)) =~= q);
                    assert(sp_and(sp_not(sp_not(p)), sp_not(sp_not(q))) =~= pq);
                    self.sp_ext(r, sp_or(h1, h2), ctl(sys, f.model()));
                }
                Ok(r)
            },
            TFormula::AR(a, b) => {
                let ghost p = ctl(sys, a.model());
                let ghost q = ctl(sys, b.model());
                let x = self.ctl_sat(a)?;
                let ghost o1 = *self;
                let y = self.ctl_sat(b)?;
                let ghost o2 = *self;
                proof {
                    self.sp_keeps(&o1, x, p);
                }
                let nx = self.sp_complement(x, Ghost(p));
                let ghost o3 = *self;
                proof {
                    self.sp_keeps(&o2, y, q);
                }
                let ny = self.sp_complement(y, Ghost(q));
                proof {
                    self.sp_keeps(&o3, nx, sp_not(p));
                }
                let e = self.sp_reach(nx, ny, Ghost(sp_not(p)), Ghost(sp_not(q)));
                let ghost h = |s: State| sp_eu(sys, sp_not(p), sp_not(q), s);
                let r = self.sp_complement(e, Ghost(h));
                proof {
                    self.sp_ext(r, sp_not(h), ctl(sys, f.model()));
                }
                Ok(r)
            },
            _ => Err(bad("LTL operator in CTL formula")),
        }
    }

    /// One state of a set, as the only state of a sequence.
    fn one_state(&mut self, n: NodeId, Ghost(p): Ghost<SP>) -> (r: Option<Vec<Vec<Value>>>)
        requires
            old(self).wf(),
            old(self).is_sp(n, p),
        ensures
            *final(self) == *old(self),
            match r {
                Some(v) => v@.len() == 1 && old(self).sys().is_state(states_of(v@)[0]) && p(
                    states_of(v@)[0],
                ),
                None => forall|s: State| old(self).sys().is_state(s) ==> !#[trigger] p(s),
            },
    {
        proof {
            self.mgr.constants_meaning();
        }
        if n == F {
            assert forall|s: State| self.sys().is_state(s) implies !#[trigger] p(s) by {
                let a = asg_of_state(self.leaves@, s);
                state_encoded(self.leaves@, self.sys(), s);
                assert(!self.mgr.eval(n, a));
            }
            return None;
        }
        let c = crate::reach::pick_state(&self.mgr, n);
        let v = decode(&self.leaves, &c);
        proof {
            st_is_state(self.leaves@, self.sys(), asg_of(c@));
        }
        let mut out: Vec<Vec<Value>> = Vec::new();
        out.push(v);
        assert(states_of(out@)[0] == st(self.leaves@, asg_of(c@)));
        Some(out)
    }

    /// Checks that `prop` holds in every initial state. The result is an initial state in which it
    /// does not, if there is one.
    pub fn check_initial(&mut self, prop: &FExpr) -> (r: Result<
        Option<Vec<Vec<Value>>>,
        EngineError,
    >)
        requires
            old(self).wf(),
            unprimed(prop.model()),
        ensures
            final(self).wf(),
            final(self).sys() == old(self).sys(),
            match r {
                Ok(None) => forall|s: State| #[trigger]
                    old(self).sys().initial(s) ==> holds_in(prop.model(), s),
                Ok(Some(v)) => v@.len() == 1 && old(self).sys().initial(states_of(v@)[0])
                    && !holds_in(prop.model(), states_of(v@)[0]),
                Err(x) => x is Eval && !is_condition(prop.model(), old(self).sys().leaves),
            },
    {
        let ghost o = *self;
        let ghost p = |s: State| holds_in(prop.model(), s);
        let x = match self.enc_state_set(prop) {
            Ok(n) => n,
            Err(x) => {
                return Err(x);
            },
        };
        assert(self.is_sp(x, p));
        Ok(self.bad_initial(x, Ghost(p)))
    }

    /// An initial state outside the set.
    fn bad_initial(&mut self, n: NodeId, Ghost(p): Ghost<SP>) -> (r: Option<Vec<Vec<Value>>>)
        requires
            old(self).wf(),
            old(self).is_sp(n, p),
        ensures
            final(self).follows(old(self)),
            match r {
                Some(v) => v@.len() == 1 && old(self).sys().initial(states_of(v@)[0]) && !p(
                    states_of(v@)[0],
                ),
                None => forall|s: State| #[trigger] old(self).sys().initial(s) ==> p(s),
            },
    {
        let ghost sys = self.flat.sys();
        let ghost q = |s: State| sys.initial(s);
        let nx = self.sp_complement(n, Ghost(p));
        let init = self.init;
        assert(self.is_sp(init, q));
        let bad = self.sp_meet(init, nx, Ghost(q), Ghost(sp_not(p)));
        let r = self.one_state(bad, Ghost(sp_and(q, sp_not(p))));
        proof {
            if r is None {
                assert forall|s: State| #[trigger] sys.initial(s) implies p(s) by {
                    assert(!sp_and(q, sp_not(p))(s));
                }
            }
        }
        r
    }

    /// Checks a branching-time formula: it holds if every initial state satisfies it. The result is
    /// an initial state that does not, if there is one.
    pub fn check_ctl(&mut self, f: &TFormula) -> (r: Result<Option<Vec<Vec<Value>>>, EngineError>)
        requires
            old(self).wf(),
            atoms_plain(f.model()),
        ensures
            final(self).wf(),
            final(self).sys() == old(self).sys(),
            match r {
                Ok(None) => !has_linear(f.model()) && forall|s: State| #[trigger]
                    old(self).sys().initial(s) ==> ctl(old(self).sys(), f.model())(s),
                Ok(Some(v)) => !has_linear(f.model()) && v@.len() == 1 && old(self).sys().initial(
                    states_of(v@)[0],
                ) && !ctl(old(self).sys(), f.model())(states_of(v@)[0]),
                Err(x) => x is Eval && (has_linear(f.model()) || !atoms_typed(
                    f.model(),
                    old(self).sys().leaves,
                )),
            },
    {
        let x = match self.ctl_sat(f) {
            Ok(n) => n,
            Err(x) => {
                return Err(x);
            },
        };
        Ok(self.bad_initial(x, Ghost(ctl(self.flat.sys(), f.model()))))
    }

    /// A run of up to `depth` steps. It is shorter only if it ends in a state that no step leaves.
    pub fn random_path(&mut self, depth: usize) -> (r: Result<Vec<Vec<Value>>, EngineError>)
        requires
            old(self).wf(),
        ensures
            final(self).wf(),
            final(self).sys() == old(self).sys(),
            match r {
                Ok(p) => old(self).sys().run(states_of(p@)) && p@.len() <= depth + 1 && (p@.len()
                    == depth + 1 || old(self).sys().stuck(states_of(p@).last())),
                Err(x) => x is Eval && forall|s: State| !#[trigger] old(self).sys().initial(s),
            },
    {
        let ghost o = *self;
        let ghost sys = self.flat.sys();
        let ghost es = self.leaves@;
        let ghost q = |s: State| sys.initial(s);
        let init = self.init;
        assert(self.is_sp(init, q));
        let mut out = match self.one_state(init, Ghost(q)) {
            Some(v) => v,
            None => {
                assert forall|s: State| !#[trigger] sys.initial(s) by {
                    if sys.initial(s) {
                        assert(q(s));
                    }
                }
                return Err(bad("the module has no initial states"));
            },
        };
        let mut i: usize = 0;
        while i < depth
            invariant
                i <= depth,
                o == *old(self),
                o.wf(),
                self.follows(&o),
                sys == o.sys(),
                out@.len() == i + 1,
                sys.run(states_of(out@)),
            decreases depth - i,
        {
            let ghost before = states_of(out@);
            let ghost here = before.last();
            proof {
                run_state(sys, before);
                assert(models(out@[i as int]@) == here);
            }
            let one = self.state_bdd(&out[i]);
            let ghost o1 = *self;
            let ghost only_here = |s: State| s == here;
            let ghost p = |t: State| sys.step(here, t);
            let only = image(&mut self.mgr, &self.parts, self.width, one);
            proof {
                self.follow(&o1);
                o1.follows_trans(&o, self);
                let es = self.leaves@;
                assert forall|b: Asg| #[trigger] self.mgr.eval(only, b) == (dom(es, false, b) && p(st(es, b))) by {
                    if self.mgr.eval(only, b) {
                        let a = choose|a: Asg| #[trigger]
                            o1.mgr.eval(one, a) && rel_at(&o1.mgr, o1.parts@, a, b);
                        assert(o1.member(one, st(es, a)));
                    }
                    if dom(es, false, b) && p(st(es, b)) {
                        assert(o1.member(one, here));
                        let a = choose|a: Asg|
                            dom(es, false, a) && st(es, a) == here && #[trigger] o1.mgr.eval(one, a);
                        assert(o1.mgr.eval(one, a) && rel_at(&o1.mgr, o1.parts@, a, b));
                    }
                }
            }
            match self.one_state(only, Ghost(p)) {
                None => {
                    assert forall|t: State| !#[trigger] sys.step(here, t) by {
                        if sys.step(here, t) {
                            assert(p(t));
                        }
                    }
                    return Ok(out);
                },
                Some(mut v) => {
                    let next = v.remove(0);
                    out.push(next);
                    proof {
                        let now = states_of(out@);
                        assert(now =~= before.push(now.last()));
                        assert forall|k: int| 0 <= k < now.len() - 1 implies sys.step(
                            #[trigger] now[k],
                            now[k + 1],
                        ) by {
                            if k < before.len() - 1 {
                                assert(sys.step(before[k], before[k + 1]));
                            }
                        }
                        assert(now[0] == before[0]);
                    }
                },
            }
            i += 1;
        }
        Ok(out)
    }
}

/// A literal holds in a state.
pub open spec fn lit_in(f: NN, s: State) -> bool {
    match f {
        NN::Atom(e) => holds_in(e, s),
        NN::NAtom(e) => !holds_in(e, s),
        _ => true,
    }
}

/// Literals hold in a state.
pub open spec fn lits_in(l: Seq<Ltl>, s: State) -> bool {
    forall|k: int| 0 <= k < l.len() ==> lit_in((#[trigger] l[k]).model(), s)
}

spec fn lits_sp(l: Seq<Ltl>) -> SP {
    |s: State| lits_in(l, s)
}

/// The node of the automaton that an assignment encodes.
spec fn aq(x: Asg, base: u32, n: u32) -> nat {
    code(x, base as int, n as nat)
}

/// The product with an automaton: places of its bits and its relations.
ghost struct Prod {
    es: Seq<LeafEnc>,
    sys: Sys,
    aut: Lgba,
    base: u32,
    n: u32,
}

impl Prod {
    spec fn w(self) -> u32 {
        (self.base + 2 * self.n) as u32
    }

    spec fn ok(self) -> bool {
        &&& leaves_ok(self.es)
        &&& encodes(self.es, self.sys.leaves)
        &&& leaves_below(self.es, self.base)
        &&& self.base % 2 == 0
        &&& self.n <= 64
        &&& self.base + 2 * self.n < VAR_LIMIT
        &&& self.aut.wf()
        &&& self.aut.labels@.len() <= p2(self.n as nat)
        &&& self.aut.labels@.len() <= usize::MAX
    }

    spec fn q(self, x: Asg) -> nat {
        aq(x, self.base, self.n)
    }

    spec fn label(self, x: Asg) -> bool {
        lits_in(self.aut.labels@[self.q(x) as int]@, st(self.es, x))
    }

    spec fn init(self, x: Asg) -> bool {
        &&& dom(self.es, false, x)
        &&& self.sys.initial(st(self.es, x))
        &&& self.aut.initial@.contains(self.q(x) as usize)
        &&& self.q(x) < self.aut.labels@.len()
        &&& self.label(x)
    }

    spec fn moves(self, x: Asg, y: Asg) -> bool {
        &&& dom(self.es, false, y)
        &&& self.q(x) < self.aut.labels@.len()
        &&& self.q(y) < self.aut.labels@.len()
        &&& self.aut.edges@[self.q(x) as int]@.contains(self.q(y) as usize)
        &&& self.label(y)
    }

    spec fn rel(self, x: Asg, y: Asg) -> bool {
        &&& dom(self.es, false, x)
        &&& self.sys.step(st(self.es, x), st(self.es, y))
        &&& self.moves(x, y)
    }

    spec fn fair(self, s: int, x: Asg) -> bool {
        self.q(x) < self.aut.labels@.len() && self.aut.accepting@[s]@.contains(self.q(x) as usize)
    }

    /// Alike product states are the same state.
    proof fn same(self, x: Asg, y: Asg)
        requires
            self.ok(),
            alike(x, y, self.w()),
        ensures
            self.q(x) == self.q(y),
            dom(self.es, false, x) == dom(self.es, false, y),
            st(self.es, x) == st(self.es, y),
    {
        let w = self.w();
        assert forall|k: int| 0 <= k < self.n implies x((self.base + 2 * k) as u32) == #[trigger] y(
            (self.base + 2 * k) as u32,
        ) by {
            assert(bits(w)((self.base + 2 * k) as u32));
        }
        code_same(x, y, self.base as int, self.n as nat);
        assert(alike(x, y, self.base)) by {
            assert forall|v: u32| #[trigger] bits(self.base)(v) implies x(v) == y(v) by {
                assert(bits(w)(v));
            }
        }
        st_same(self.es, self.base, x, y);
    }

    /// A property of product states is a set.
    proof fn is_set_of(self, m: &Mgr, n: NodeId, p: spec_fn(nat, bool, State) -> bool)
        requires
            self.ok(),
            m.valid(n),
            forall|x: Asg| #[trigger]
                m.eval(n, x) == p(self.q(x), dom(self.es, false, x), st(self.es, x)),
        ensures
            is_set(m, n, self.w()),
    {
        let b = bits(self.w());
        assert forall|x: Asg, y: Asg| (forall|v: u32| #[trigger] b(v) ==> x(v) == y(v)) implies #[trigger] m.eval(
            n,
            x,
        ) == #[trigger] m.eval(n, y) by {
            assert(alike(x, y, self.w()));
            self.same(x, y);
        }
    }

    /// A property of two product states depends on their bits.
    proof fn is_low_of(
        self,
        m: &Mgr,
        n: NodeId,
        p: spec_fn(nat, nat, bool, State) -> bool,
    )
        requires
            self.ok(),
            m.valid(n),
            forall|x: Asg, y: Asg| #[trigger]
                m.eval(n, join(x, y)) == p(
                    self.q(x),
                    self.q(y),
                    dom(self.es, false, y),
                    st(self.es, y),
                ),
        ensures
            low(m, n, self.w()),
    {
        let b = below(self.w());
        assert forall|x: Asg, y: Asg| (forall|v: u32| #[trigger] b(v) ==> x(v) == y(v)) implies #[trigger] m.eval(
            n,
            x,
        ) == #[trigger] m.eval(n, y) by {
            let x2 = shifted(x, true);
            let y2 = shifted(y, true);
            crate::reach::join_parts(x);
            crate::reach::join_parts(y);
            assert(alike(x, y, self.w())) by {
                assert forall|v: u32| #[trigger] bits(self.w())(v) implies x(v) == y(v) by {
                    assert(b(v));
                }
            }
            assert(alike(x2, y2, self.w())) by {
                assert forall|v: u32| #[trigger] bits(self.w())(v) implies x2(v) == y2(v) by {
                    assert(b((v + 1) as u32));
                }
            }
            self.same(x, y);
            self.same(x2, y2);
            assert(m.eval(n, join(x, x2)) == m.eval(n, join(y, y2)));
        }
    }
}

/// The set of states in which literals hold.
fn enc_literals<'m>(s: &mut Symbolic<'m>, l: &Vec<Ltl>) -> (r: Result<NodeId, EngineError>)
    requires
        old(s).wf(),
        forall|k: int| 0 <= k < l@.len() ==> is_literal((#[trigger] l@[k]).model()),
        forall|k: int|
            0 <= k < l@.len() ==> nn_atoms((#[trigger] l@[k]).model(), |e: FE| unprimed(e)),
    ensures
        final(s).follows(old(s)),
        final(s).cmd_relations == old(s).cmd_relations,
        match r {
            Ok(n) => final(s).is_sp(n, lits_sp(l@)),
            Err(x) => x is Eval && exists|k: int|
                0 <= k < l@.len() && !nn_atoms(
                    (#[trigger] l@[k]).model(),
                    |e: FE| is_condition(e, old(s).sys().leaves),
                ),
        },
{
    let ghost o = *s;
    let mut r = s.domain;
    let mut i: usize = 0;
    assert(l@.take(0) =~= Seq::empty());
    assert(s.is_sp(r, lits_sp(l@.take(0)))) by {
        assert forall|a: Asg| #[trigger] s.mgr.eval(r, a) == (dom(s.leaves@, false, a) && lits_sp(
            l@.take(0),
        )(st(s.leaves@, a))) by {}
    }
    while i < l.len()
        invariant
            i <= l@.len(),
            o == *old(s),
            o.wf(),
            s.follows(&o),
            s.cmd_relations == o.cmd_relations,
            forall|k: int| 0 <= k < l@.len() ==> is_literal((#[trigger] l@[k]).model()),
            forall|k: int|
                0 <= k < l@.len() ==> nn_atoms((#[trigger] l@[k]).model(), |e: FE| unprimed(e)),
            s.is_sp(r, lits_sp(l@.take(i as int))),
        decreases l.len() - i,
    {
        let ghost s0 = *s;
        assert(is_literal(l@[i as int].model()));
        assert(nn_atoms(l@[i as int].model(), |e: FE| unprimed(e)));
        let ghost p = |t: State| lit_in(l@[i as int].model(), t);
        let n;
        match &l[i] {
            Ltl::Atom(e) => {
                n = match s.enc_state_set(e) {
                    Ok(n) => n,
                    Err(x) => {
                        proof {
                            s0.follows_trans(&o, s);
                            assert(!nn_atoms(
                                l@[i as int].model(),
                                |e: FE| is_condition(e, o.sys().leaves),
                            ));
                        }
                        return Err(x);
                    },
                };
                assert(s.is_sp(n, p));
            },
            Ltl::NAtom(e) => {
                let m = match s.enc_state_set(e) {
                    Ok(n) => n,
                    Err(x) => {
                        proof {
                            s0.follows_trans(&o, s);
                            assert(!nn_atoms(
                                l@[i as int].model(),
                                |e: FE| is_condition(e, o.sys().leaves),
                            ));
                        }
                        return Err(x);
                    },
                };
                let ghost q = |t: State| holds_in(e.model(), t);
                assert(s.is_sp(m, q));
                let ghost s1 = *s;
                n = s.sp_complement(m, Ghost(q));
                proof {
                    s1.follows_trans(&s0, s);
                    s.sp_ext(n, sp_not(q), p);
                }
            },
            _ => {
                n = r;
            },
        }
        let ghost s2 = *s;
        proof {
            s.sp_keeps(&s0, r, lits_sp(l@.take(i as int)));
            s0.follows_trans(&o, s);
        }
        r = s.sp_meet(r, n, Ghost(lits_sp(l@.take(i as int))), Ghost(p));
        proof {
            s2.follows_trans(&o, s);
            let a = sp_and(lits_sp(l@.take(i as int)), p);
            let b = lits_sp(l@.take(i + 1));
            assert forall|t: State| #[trigger] a(t) == b(t) by {
                let x = l@.take(i as int);
                let y = l@.take(i + 1);
                if lits_in(y, t) {
                    assert(lit_in(y[i as int].model(), t));
                    assert forall|k: int| 0 <= k < x.len() implies lit_in((#[trigger] x[k]).model(), t) by {
                        assert(lit_in(y[k].model(), t));
                    }
                }
                if lits_in(x, t) && p(t) {
                    assert forall|k: int| 0 <= k < y.len() implies lit_in((#[trigger] y[k]).model(), t) by {
                        if k < i {
                            assert(lit_in(x[k].model(), t));
                        }
                    }
                }
            }
            s.sp_ext(r, a, b);
        }
        i += 1;
    }
    assert(l@.take(i as int) =~= l@);
    Ok(r)
}

/// The sets of states for the labels of an automaton.
fn enc_labels<'m>(s: &mut Symbolic<'m>, aut: &Lgba) -> (r: Result<Vec<NodeId>, EngineError>)
    requires
        old(s).wf(),
        aut.wf(),
        aut.atoms_in(|e: FE| unprimed(e)),
    ensures
        final(s).follows(old(s)),
        final(s).cmd_relations == old(s).cmd_relations,
        match r {
            Ok(v) => v@.len() == aut.labels@.len() && forall|q: int|
                0 <= q < v@.len() ==> final(s).is_sp(#[trigger] v@[q], lits_sp(aut.labels@[q]@)),
            Err(x) => x is Eval && !aut.atoms_in(|e: FE| is_condition(e, old(s).sys().leaves)),
        },
{
    let ghost o = *s;
    let mut v: Vec<NodeId> = Vec::new();
    let mut q: usize = 0;
    while q < aut.labels.len()
        invariant
            q <= aut.labels@.len(),
            o == *old(s),
            o.wf(),
            aut.wf(),
            aut.atoms_in(|e: FE| unprimed(e)),
            s.follows(&o),
            s.cmd_relations == o.cmd_relations,
            v@.len() == q,
            forall|k: int| 0 <= k < q ==> s.is_sp(#[trigger] v@[k], lits_sp(aut.labels@[k]@)),
        decreases aut.labels.len() - q,
    {
        let ghost s0 = *s;
        let ghost l = aut.labels@[q as int]@;
        assert forall|k: int| 0 <= k < l.len() implies is_literal((#[trigger] l[k]).model()) by {
            assert(is_literal(aut.labels@[q as int]@[k].model()));
        }
        assert forall|k: int| 0 <= k < l.len() implies nn_atoms(
            (#[trigger] l[k]).model(),
            |e: FE| unprimed(e),
        ) by {
            assert(aut.labels@[q as int]@[k] == l[k]);
        }
        match enc_literals(s, &aut.labels[q]) {
            Err(x) => {
                proof {
                    s0.follows_trans(&o, s);
                    let f = |e: FE| is_condition(e, o.sys().leaves);
                    let k = choose|k: int|
                        0 <= k < l.len() && !nn_atoms((#[trigger] l[k]).model(), f);
                    assert(aut.labels@[q as int]@[k] == l[k]);
                }
                return Err(x);
            },
            Ok(n) => {
                proof {
                    s0.follows_trans(&o, s);
                    assert forall|k: int| 0 <= k < q implies s.is_sp(
                        #[trigger] v@[k],
                        lits_sp(aut.labels@[k]@),
                    ) by {
                        s.sp_keeps(&s0, v@[k], lits_sp(aut.labels@[k]@));
                    }
                }
                v.push(n);
            },
        }
        q += 1;
    }
    Ok(v)
}

/// The initial states of the product.
fn prod_init<'m>(
    s: &mut Symbolic<'m>,
    aut: &Lgba,
    labels: &Vec<NodeId>,
    n: u32,
    Ghost(pr): Ghost<Prod>,
) -> (r: NodeId)
    requires
        old(s).wf(),
        pr.ok(),
        pr == (Prod {
            es: old(s).leaves@,
            sys: old(s).sys(),
            aut: *aut,
            base: old(s).width,
            n,
        }),
        labels@.len() == aut.labels@.len(),
        forall|q: int|
            0 <= q < labels@.len() ==> old(s).is_sp(#[trigger] labels@[q], lits_sp(aut.labels@[q]@)),
    ensures
        final(s).follows(old(s)),
        final(s).cmd_relations == old(s).cmd_relations,
        is_set(&final(s).mgr, r, pr.w()),
        forall|x: Asg| #[trigger] final(s).mgr.eval(r, x) == pr.init(x),
{
    let ghost o = *s;
    proof {
        s.mgr.constants_meaning();
    }
    let base: u32 = s.width;
    let mut r = F;
    let mut i: usize = 0;
    while i < aut.initial.len()
        invariant
            i <= aut.initial@.len(),
            o == *old(s),
            o.wf(),
            pr.ok(),
            pr == (Prod { es: o.leaves@, sys: o.sys(), aut: *aut, base: o.width, n }),
            base == o.width,
            s.follows(&o),
            s.cmd_relations == o.cmd_relations,
            labels@.len() == aut.labels@.len(),
            forall|q: int|
                0 <= q < labels@.len() ==> o.is_sp(#[trigger] labels@[q], lits_sp(aut.labels@[q]@)),
            s.mgr.valid(r),
            forall|x: Asg| #[trigger]
                s.mgr.eval(r, x) == (dom(pr.es, false, x) && pr.q(x) < aut.labels@.len()
                    && aut.initial@.take(i as int).contains(pr.q(x) as usize) && pr.label(x)),
        decreases aut.initial.len() - i,
    {
        let ghost s0 = *s;
        let ghost r0 = r;
        let q: usize = aut.initial[i];
        assert(q < aut.labels@.len());
        assert(o.is_sp(labels@[q as int], lits_sp(aut.labels@[q as int]@)));
        let a = eq_code(&mut s.mgr, base, n, q);
        let ghost m1 = s.mgr;
        let al = s.mgr.and(a, labels[q]);
        let ghost m2 = s.mgr;
        r = s.mgr.or(r, al);
        proof {
            s.follow(&s0);
            s0.follows_trans(&o, s);
            assert forall|x: Asg| #[trigger] s.mgr.eval(r, x) == (dom(pr.es, false, x) && pr.q(x)
                < aut.labels@.len() && aut.initial@.take(i + 1).contains(pr.q(x) as usize) && pr.label(
                x,
            )) by {
                assert(m2.eval(r0, x) == s0.mgr.eval(r0, x));
                assert(m2.eval(al, x) == (m1.eval(a, x) && m1.eval(labels@[q as int], x)));
                assert(m1.eval(labels@[q as int], x) == o.mgr.eval(labels@[q as int], x));
                assert(m1.eval(a, x) == (pr.q(x) == q));
                let y = aut.initial@.take(i + 1);
                let z = aut.initial@.take(i as int);
                if pr.q(x) < aut.labels@.len() {
                    let c = pr.q(x) as usize;
                    assert(c == pr.q(x));
                    if z.contains(c) {
                        let k = choose|k: int| 0 <= k < z.len() && z[k] == c;
                        assert(y[k] == c);
                    }
                    if y.contains(c) {
                        let k = choose|k: int| 0 <= k < y.len() && y[k] == c;
                        if k < i {
                            assert(z[k] == c);
                        }
                    }
                    if c == q {
                        assert(y[i as int] == c);
                    }
                }
            }
        }
        i += 1;
    }
    let ghost s1 = *s;
    let out = s.mgr.and(r, s.init);
    proof {
        s.follow(&s1);
        s1.follows_trans(&o, s);
        assert(aut.initial@.take(i as int) =~= aut.initial@);
        assert forall|x: Asg| #[trigger] s.mgr.eval(out, x) == pr.init(x) by {
            assert(s1.mgr.eval(s1.init, x) == o.mgr.eval(o.init, x));
        }
        pr.is_set_of(
            &s.mgr,
            out,
            |q: nat, d: bool, t: State|
                d && pr.sys.initial(t) && aut.initial@.contains(q as usize) && q
                    < aut.labels@.len() && lits_in(aut.labels@[q as int]@, t),
        );
    }
    out
}

/// The moves of the automaton.
fn prod_moves<'m>(
    s: &mut Symbolic<'m>,
    aut: &Lgba,
    labels: &Vec<NodeId>,
    n: u32,
    Ghost(pr): Ghost<Prod>,
) -> (r: NodeId)
    requires
        old(s).wf(),
        pr.ok(),
        pr == (Prod {
            es: old(s).leaves@,
            sys: old(s).sys(),
            aut: *aut,
            base: old(s).width,
            n,
        }),
        labels@.len() == aut.labels@.len(),
        forall|q: int|
            0 <= q < labels@.len() ==> old(s).is_sp(#[trigger] labels@[q], lits_sp(aut.labels@[q]@)),
    ensures
        final(s).follows(old(s)),
        final(s).cmd_relations == old(s).cmd_relations,
        low(&final(s).mgr, r, pr.w()),
        forall|x: Asg, y: Asg| #[trigger] final(s).mgr.eval(r, join(x, y)) == pr.moves(x, y),
{
    let ghost o = *s;
    proof {
        s.mgr.constants_meaning();
    }
    let base: u32 = s.width;
    let mut r = F;
    let mut q: usize = 0;
    while q < aut.edges.len()
        invariant
            q <= aut.edges@.len(),
            o == *old(s),
            o.wf(),
            pr.ok(),
            pr == (Prod { es: o.leaves@, sys: o.sys(), aut: *aut, base: o.width, n }),
            base == o.width,
            s.follows(&o),
            s.cmd_relations == o.cmd_relations,
            labels@.len() == aut.labels@.len(),
            forall|q: int|
                0 <= q < labels@.len() ==> o.is_sp(#[trigger] labels@[q], lits_sp(aut.labels@[q]@)),
            s.mgr.valid(r),
            forall|x: Asg, y: Asg| #[trigger]
                s.mgr.eval(r, join(x, y)) == (pr.q(x) < q && pr.moves(x, y)),
        decreases aut.edges.len() - q,
    {
        let mut i: usize = 0;
        let ghost rq = r;
        let ghost sq = *s;
        while i < aut.edges[q].len()
            invariant
                q < aut.edges@.len(),
                i <= aut.edges@[q as int]@.len(),
                o == *old(s),
                o.wf(),
                pr.ok(),
                pr == (Prod { es: o.leaves@, sys: o.sys(), aut: *aut, base: o.width, n }),
                base == o.width,
                s.follows(&o),
                s.cmd_relations == o.cmd_relations,
                labels@.len() == aut.labels@.len(),
                forall|q: int|
                    0 <= q < labels@.len() ==> o.is_sp(
                        #[trigger] labels@[q],
                        lits_sp(aut.labels@[q]@),
                    ),
                s.mgr.valid(r),
                forall|x: Asg, y: Asg| #[trigger]
                    s.mgr.eval(r, join(x, y)) == ((pr.q(x) < q && pr.moves(x, y)) || (pr.q(x) == q
                        && pr.moves(x, y) && aut.edges@[q as int]@.take(i as int).contains(
                        pr.q(y) as usize,
                    ))),
            decreases aut.edges@[q as int]@.len() - i,
        {
            let ghost s0 = *s;
            let ghost r0 = r;
            let q2: usize = aut.edges[q][i];
            assert(aut.edges@[q as int]@[i as int] == q2);
            assert(q2 < aut.labels@.len());
            assert(o.is_sp(labels@[q2 as int], lits_sp(aut.labels@[q2 as int]@)));
            let lab = labels[q2];
            let a = eq_code(&mut s.mgr, base, n, q);
            let ghost m1 = s.mgr;
            let b = eq_code(&mut s.mgr, base + 1, n, q2);
            let ghost m2 = s.mgr;
            proof {
                assert forall|x: Asg, y: Asg| (forall|v: u32| #[trigger] current()(v) ==> x(v) == y(v)) implies
                    #[trigger] m2.eval(lab, x) == #[trigger] m2.eval(lab, y) by {
                    let p = bits(o.width);
                    assert forall|v: u32| #[trigger] p(v) implies x(v) == y(v) by {
                        assert(current()(v));
                    }
                    assert(o.mgr.eval(lab, x) == o.mgr.eval(lab, y));
                    assert(m2.eval(lab, x) == o.mgr.eval(lab, x));
                    assert(m2.eval(lab, y) == o.mgr.eval(lab, y));
                }
            }
            let lb = s.mgr.shift(lab, 1);
            let ghost m3 = s.mgr;
            let ab = s.mgr.and(a, b);
            let ghost m4 = s.mgr;
            let t = s.mgr.and(ab, lb);
            let ghost m5 = s.mgr;
            r = s.mgr.or(r, t);
            proof {
                s.follow(&s0);
                s0.follows_trans(&o, s);
                assert forall|x: Asg, y: Asg| #[trigger] s.mgr.eval(r, join(x, y)) == ((pr.q(x) < q
                    && pr.moves(x, y)) || (pr.q(x) == q && pr.moves(x, y) && aut.edges@[q as int]@.take(
                    i + 1,
                ).contains(pr.q(y) as usize))) by {
                    let z = join(x, y);
                    let e0 = aut.edges@[q as int]@.take(i as int);
                    let e1 = aut.edges@[q as int]@.take(i + 1);
                    assert(m5.eval(r0, z) == s0.mgr.eval(r0, z));
                    assert(m5.eval(t, z) == (m4.eval(ab, z) && m4.eval(lb, z)));
                    assert(m4.eval(ab, z) == (m3.eval(a, z) && m3.eval(b, z)));
                    assert(m3.eval(a, z) == m1.eval(a, z));
                    assert(m3.eval(b, z) == m2.eval(b, z));
                    assert(m4.eval(lb, z) == m3.eval(lb, z));
                    assert(m3.eval(lb, z) == m2.eval(lab, shifted(z, true)));
                    assert(m2.eval(lab, shifted(z, true)) == o.mgr.eval(lab, shifted(z, true)));
                    code_join(x, y, base as int, n as nat);
                    let y2 = shifted(z, true);
                    assert(alike(y2, y, o.width)) by {
                        assert forall|v: u32| #[trigger] bits(o.width)(v) implies y2(v) == y(v) by {}
                    }
                    st_same(pr.es, o.width, y2, y);
                    assert(m5.eval(t, z) == (pr.q(x) == q && pr.q(y) == q2 && dom(pr.es, false, y)
                        && lits_in(aut.labels@[q2 as int]@, st(pr.es, y))));
                    if pr.q(y) < aut.labels@.len() {
                        let c = pr.q(y) as usize;
                        assert(c == pr.q(y));
                        if e0.contains(c) {
                            let k = choose|k: int| 0 <= k < e0.len() && e0[k] == c;
                            assert(e1[k] == c);
                        }
                        if e1.contains(c) {
                            let k = choose|k: int| 0 <= k < e1.len() && e1[k] == c;
                            if k < i {
                                assert(e0[k] == c);
                            } else {
                                assert(c == q2);
                            }
                        }
                        if c == q2 {
                            assert(e1[i as int] == c);
                            assert(aut.edges@[q as int]@.contains(c));
                        }
                    }
                }
            }
            i += 1;
        }
        assert(aut.edges@[q as int]@.take(i as int) =~= aut.edges@[q as int]@);
        q += 1;
    }
    proof {
        pr.is_low_of(
            &s.mgr,
            r,
            |a: nat, b: nat, d: bool, t: State|
                d && a < aut.labels@.len() && b < aut.labels@.len()
                    && aut.edges@[a as int]@.contains(b as usize) && lits_in(
                    aut.labels@[b as int]@,
                    t,
                ),
        );
    }
    r
}

/// The fair sets of the product.
fn prod_fair<'m>(s: &mut Symbolic<'m>, aut: &Lgba, n: u32, Ghost(pr): Ghost<Prod>) -> (r: Vec<NodeId>)
    requires
        old(s).wf(),
        pr.ok(),
        pr == (Prod {
            es: old(s).leaves@,
            sys: old(s).sys(),
            aut: *aut,
            base: old(s).width,
            n,
        }),
    ensures
        final(s).follows(old(s)),
        final(s).cmd_relations == old(s).cmd_relations,
        r@.len() == aut.accepting@.len(),
        forall|i: int| 0 <= i < r@.len() ==> is_set(&final(s).mgr, #[trigger] r@[i], pr.w()),
        forall|i: int, x: Asg|
            0 <= i < r@.len() ==> #[trigger] final(s).mgr.eval(r@[i], x) == pr.fair(i, x),
{
    let ghost o = *s;
    let base: u32 = s.width;
    let mut out: Vec<NodeId> = Vec::new();
    let mut i: usize = 0;
    while i < aut.accepting.len()
        invariant
            i <= aut.accepting@.len(),
            o == *old(s),
            o.wf(),
            pr.ok(),
            pr == (Prod { es: o.leaves@, sys: o.sys(), aut: *aut, base: o.width, n }),
            base == o.width,
            s.follows(&o),
            s.cmd_relations == o.cmd_relations,
            out@.len() == i,
            forall|k: int| 0 <= k < i ==> is_set(&s.mgr, #[trigger] out@[k], pr.w()),
            forall|k: int, x: Asg|
                0 <= k < i ==> #[trigger] s.mgr.eval(out@[k], x) == pr.fair(k, x),
        decreases aut.accepting.len() - i,
    {
        let ghost si = *s;
        proof {
            s.mgr.constants_meaning();
        }
        let mut f = F;
        let mut j: usize = 0;
        while j < aut.accepting[i].len()
            invariant
                i < aut.accepting@.len(),
                j <= aut.accepting@[i as int]@.len(),
                o.wf(),
                pr.ok(),
                pr == (Prod { es: o.leaves@, sys: o.sys(), aut: *aut, base: o.width, n }),
                base == o.width,
                si.follows(&o),
                s.follows(&si),
                s.cmd_relations == si.cmd_relations,
                s.mgr.valid(f),
                forall|x: Asg| #[trigger]
                    s.mgr.eval(f, x) == (pr.q(x) < aut.labels@.len() && aut.accepting@[i as int]@.take(
                        j as int,
                    ).contains(pr.q(x) as usize)),
            decreases aut.accepting@[i as int]@.len() - j,
        {
            let ghost s0 = *s;
            let ghost f0 = f;
            let q: usize = aut.accepting[i][j];
            assert(aut.accepting@[i as int]@[j as int] == q);
            assert(q < aut.labels@.len());
            let a = eq_code(&mut s.mgr, base, n, q);
            let ghost m1 = s.mgr;
            f = s.mgr.or(f, a);
            proof {
                s.follow(&s0);
                s0.follows_trans(&si, s);
                assert forall|x: Asg| #[trigger] s.mgr.eval(f, x) == (pr.q(x) < aut.labels@.len()
                    && aut.accepting@[i as int]@.take(j + 1).contains(pr.q(x) as usize)) by {
                    assert(m1.eval(f0, x) == s0.mgr.eval(f0, x));
                    assert(m1.eval(a, x) == (pr.q(x) == q));
                    let y = aut.accepting@[i as int]@.take(j + 1);
                    let z = aut.accepting@[i as int]@.take(j as int);
                    if pr.q(x) < aut.labels@.len() {
                        let c = pr.q(x) as usize;
                        assert(c == pr.q(x));
                        if z.contains(c) {
                            let k = choose|k: int| 0 <= k < z.len() && z[k] == c;
                            assert(y[k] == c);
                        }
                        if y.contains(c) {
                            let k = choose|k: int| 0 <= k < y.len() && y[k] == c;
                            if k < j {
                                assert(z[k] == c);
                            }
                        }
                        if c == q {
                            assert(y[j as int] == c);
                        }
                    }
                }
            }
            j += 1;
        }
        let ghost out0 = out@;
        out.push(f);
        proof {
            si.follows_trans(&o, s);
            assert(aut.accepting@[i as int]@.take(j as int) =~= aut.accepting@[i as int]@);
            pr.is_set_of(
                &s.mgr,
                f,
                |q: nat, d: bool, t: State|
                    q < aut.labels@.len() && aut.accepting@[i as int]@.contains(q as usize),
            );
            assert forall|k: int| 0 <= k < i + 1 implies is_set(&s.mgr, #[trigger] out@[k], pr.w()) by {
                if k < i {
                    assert(out@[k] == out0[k]);
                    crate::reach::set_keeps(&s.mgr, &si.mgr, out0[k], pr.w());
                }
            }
            assert forall|k: int, x: Asg| 0 <= k < i + 1 implies #[trigger] s.mgr.eval(out@[k], x) == pr.fair(
                k,
                x,
            ) by {
                if k < i {
                    assert(out@[k] == out0[k]);
                    assert(is_set(&si.mgr, out0[k], pr.w()));
                    assert(s.mgr.eval(out0[k], x) == si.mgr.eval(out0[k], x));
                }
            }
        }
        i += 1;
    }
    out
}

/// The word of a sequence of states: an atom holds where it holds in the state.
pub open spec fn word_of(tr: Trace) -> Word {
    |i: nat, e: FE| holds_in(e, tr(i))
}

proof fn lits_word(l: Seq<Ltl>, tr: Trace, i: nat)
    requires
        forall|k: int| 0 <= k < l.len() ==> is_literal((#[trigger] l[k]).model()),
    ensures
        lits_hold(l, word_of(tr), i) == lits_in(l, tr(i)),
{
    assert forall|k: int| 0 <= k < l.len() implies nn_sat((#[trigger] l[k]).model(), word_of(tr))(i)
        == lit_in(l[k].model(), tr(i)) by {
        assert(is_literal(l[k].model()));
    }
    if lits_hold(l, word_of(tr), i) {
        assert forall|k: int| 0 <= k < l.len() implies lit_in((#[trigger] l[k]).model(), tr(i)) by {
            assert(nn_sat(l[k].model(), word_of(tr))(i));
        }
    }
    if lits_in(l, tr(i)) {
        assert forall|k: int| 0 <= k < l.len() implies nn_sat((#[trigger] l[k]).model(), word_of(tr))(i) by {
            assert(lit_in(l[k].model(), tr(i)));
        }
    }
}

impl Prod {
    spec fn rel_fun(self) -> BR {
        |x: Asg, y: Asg| self.rel(x, y)
    }

    spec fn init_fun(self) -> BF {
        |x: Asg| self.init(x)
    }

    spec fn fair_funs(self) -> Seq<BF> {
        Seq::new(self.aut.accepting@.len(), |s: int| |x: Asg| self.fair(s, x))
    }

    /// A path of product states from an initial one, fair in the end, is an accepted run.
    proof fn accepted(self, p: spec_fn(nat) -> Asg)
        requires
            self.ok(),
            fair_run(self.init_fun(), self.rel_fun(), self.fair_funs(), p),
        ensures
            endless_run(self.sys, |i: nat| st(self.es, p(i))),
            self.aut.accepts(word_of(|i: nat| st(self.es, p(i)))),
    {
        let tr = |i: nat| st(self.es, p(i));
        let w = word_of(tr);
        let run = |i: nat| self.q(p(i)) as usize;
        assert forall|i: nat| #[trigger] sp_hops(self.sys, tr, i) by {
            assert(crate::reach::hops(self.rel_fun(), p, i));
            assert(self.rel(p(i), p((i + 1) as nat)));
        }
        assert forall|i: nat| self.q(#[trigger] p(i)) < self.aut.labels@.len() && self.label(p(i)) by {
            if i > 0 {
                assert(crate::reach::hops(self.rel_fun(), p, (i - 1) as nat));
                assert(self.rel(p((i - 1) as nat), p(i)));
            }
        }
        assert(self.aut.runs(w, run)) by {
            assert forall|i: nat| #[trigger] run(i) < self.aut.labels@.len() && lits_hold(
                self.aut.labels@[run(i) as int]@,
                w,
                i,
            ) by {
                assert(self.q(p(i)) < self.aut.labels@.len() && self.label(p(i)));
                let l = self.aut.labels@[run(i) as int]@;
                assert forall|k: int| 0 <= k < l.len() implies is_literal((#[trigger] l[k]).model()) by {
                    assert(is_literal(self.aut.labels@[run(i) as int]@[k].model()));
                }
                lits_word(l, tr, i);
            }
            assert forall|i: nat| #[trigger] self.aut.moves(run, i) by {
                assert(crate::reach::hops(self.rel_fun(), p, i));
                assert(self.rel(p(i), p((i + 1) as nat)));
            }
        }
        assert forall|s: int| 0 <= s < self.aut.accepting@.len() implies #[trigger] self.aut.visits(s, run) by {
            assert forall|i: nat| #[trigger] self.aut.visits_from(s, run, i) by {
                let f = self.fair_funs()[s];
                assert(crate::reach::visits(self.fair_funs()[s], p));
                assert(crate::reach::visits_from(f, p, i));
                let j = choose|j: nat| i <= j && f(#[trigger] p(j));
                assert(self.fair(s, p(j)));
                assert(self.aut.accepting@[s]@.contains(run(j)));
            }
        }
    }

    /// An assignment for a state and a node of the automaton.
    spec fn asg(self, s: State, q: nat) -> Asg {
        |v: u32|
            if v < self.base {
                asg_of_state(self.es, s)(v)
            } else {
                bit(q, ((v - self.base) / 2) as nat)
            }
    }

    proof fn asg_ok(self, s: State, q: nat)
        requires
            self.ok(),
            self.sys.is_state(s),
            q < self.aut.labels@.len(),
        ensures
            dom(self.es, false, self.asg(s, q)),
            st(self.es, self.asg(s, q)) == s,
            self.q(self.asg(s, q)) == q,
    {
        let x = self.asg(s, q);
        let y = asg_of_state(self.es, s);
        state_encoded(self.es, self.sys, s);
        assert(alike(x, y, self.base)) by {
            assert forall|v: u32| #[trigger] bits(self.base)(v) implies x(v) == y(v) by {}
        }
        st_same(self.es, self.base, x, y);
        code_of_bits(x, self.base as int, self.n as nat, q);
    }

    /// An accepted run of the system is a fair path of the product.
    proof fn followed(self, tr: Trace) -> (p: spec_fn(nat) -> Asg)
        requires
            self.ok(),
            endless_run(self.sys, tr),
            self.aut.accepts(word_of(tr)),
        ensures
            fair_run(self.init_fun(), self.rel_fun(), self.fair_funs(), p),
    {
        let w = word_of(tr);
        let run = choose|run: spec_fn(nat) -> usize| #[trigger]
            self.aut.runs(w, run) && forall|s: int|
                0 <= s < self.aut.accepting@.len() ==> #[trigger] self.aut.visits(s, run);
        let p = |i: nat| self.asg(tr(i), run(i) as nat);
        assert forall|i: nat| self.sys.is_state(#[trigger] tr(i)) by {
            assert(sp_hops(self.sys, tr, i));
        }
        assert forall|i: nat| dom(self.es, false, #[trigger] p(i)) && st(self.es, p(i)) == tr(i) && self.q(
            p(i),
        ) == run(i) && run(i) < self.aut.labels@.len() && self.label(p(i)) by {
            assert(run(i) < self.aut.labels@.len());
            assert(self.sys.is_state(tr(i)));
            self.asg_ok(tr(i), run(i) as nat);
            let l = self.aut.labels@[run(i) as int]@;
            assert forall|k: int| 0 <= k < l.len() implies is_literal((#[trigger] l[k]).model()) by {
                assert(is_literal(self.aut.labels@[run(i) as int]@[k].model()));
            }
            lits_word(l, tr, i);
        }
        assert(dom(self.es, false, p(0)));
        assert(self.init(p(0)));
        assert forall|i: nat| #[trigger] crate::reach::hops(self.rel_fun(), p, i) by {
            assert(sp_hops(self.sys, tr, i));
            assert(dom(self.es, false, p(i)) && dom(self.es, false, p((i + 1) as nat)));
            assert(self.aut.moves(run, i));
            assert(self.rel(p(i), p((i + 1) as nat)));
        }
        assert forall|s: int| 0 <= s < self.aut.accepting@.len() implies crate::reach::visits(
            #[trigger] self.fair_funs()[s],
            p,
        ) by {
            let f = self.fair_funs()[s];
            assert forall|i: nat| #[trigger] crate::reach::visits_from(f, p, i) by {
                assert(self.aut.visits(s, run));
                assert(self.aut.visits_from(s, run, i));
                let j = choose|j: nat| i <= j && self.aut.accepting@[s]@.contains(#[trigger] run(j));
                assert(self.q(p(j)) == run(j));
                assert(f(p(j)));
            }
        }
        p
    }

    /// Without a fair path the formula holds in all endless runs.
    proof fn holds_always(self, f: crate::formula::TF, neg: NN)
        requires
            self.ok(),
            nnf(f, true) == Some(neg),
            forall|w: Word| #[trigger] self.aut.accepts(w) == nn_sat(neg, w)(0),
            forall|p: spec_fn(nat) -> Asg| !#[trigger]
                fair_run(self.init_fun(), self.rel_fun(), self.fair_funs(), p),
        ensures
            forall|tr: Trace| #[trigger] endless_run(self.sys, tr) ==> tf_sat(f, word_of(tr))(0),
    {
        assert forall|tr: Trace| #[trigger] endless_run(self.sys, tr) implies tf_sat(f, word_of(tr))(0) by {
            nnf_meaning(f, true, word_of(tr), 0);
            if !tf_sat(f, word_of(tr))(0) {
                assert(self.aut.accepts(word_of(tr)));
                let p = self.followed(tr);
                assert(fair_run(self.init_fun(), self.rel_fun(), self.fair_funs(), p));
            }
        }
    }

    /// The states at the beginning of a fair path are a counterexample.
    proof fn begun(self, f: crate::formula::TF, neg: NN, c: Seq<Cube>)
        requires
            self.ok(),
            nnf(f, true) == Some(neg),
            forall|w: Word| #[trigger] self.aut.accepts(w) == nn_sat(neg, w)(0),
            exists|p: spec_fn(nat) -> Asg| #[trigger]
                fair_run(self.init_fun(), self.rel_fun(), self.fair_funs(), p) && begins(c, p),
        ensures
            refutes(self.sys, f, Seq::new(c.len(), |i: int| st(self.es, asg_of(c[i]@)))),
            forall|k: int| 0 <= k < c.len() ==> dom(self.es, false, asg_of((#[trigger] c[k])@)),
    {
        let p = choose|p: spec_fn(nat) -> Asg| #[trigger]
            fair_run(self.init_fun(), self.rel_fun(), self.fair_funs(), p) && begins(c, p);
        self.accepted(p);
        let tr = |i: nat| st(self.es, p(i));
        nnf_meaning(f, true, word_of(tr), 0);
        let q = Seq::new(c.len(), |i: int| st(self.es, asg_of(c[i]@)));
        assert forall|i: int| 0 <= i < q.len() implies #[trigger] q[i] == tr(i as nat) by {
            assert(asg_of(c[i]@) == p(i as nat));
        }
        assert(endless_run(self.sys, tr) && !tf_sat(f, word_of(tr))(0));
        assert forall|k: int| 0 <= k < c.len() implies dom(self.es, false, asg_of((#[trigger] c[k])@)) by {
            assert(asg_of(c[k]@) == p(k as nat));
            assert(crate::reach::hops(self.rel_fun(), p, k as nat));
        }
    }
}

/// A counterexample of a formula: the beginning of an endless run in which it does not hold.
pub open spec fn refutes(sys: Sys, f: crate::formula::TF, q: Seq<State>) -> bool {
    exists|tr: Trace| #[trigger]
        endless_run(sys, tr) && !tf_sat(f, word_of(tr))(0) && q.len() > 0 && forall|i: int|
            0 <= i < q.len() ==> #[trigger] q[i] == tr(i as nat)
}

impl<'m> Symbolic<'m> {
    /// Checks a linear-time formula on all endless runs. The result is the beginning of an endless
    /// run in which the formula does not hold, if there is one. It goes on until it has visited
    /// each of the sets that make the run a counterexample.
    pub fn check_ltl(&mut self, f: &TFormula) -> (r: Result<Option<Vec<Vec<Value>>>, EngineError>)
        requires
            old(self).wf(),
            atoms_plain(f.model()),
        ensures
            final(self).wf(),
            final(self).sys() == old(self).sys(),
            match r {
                Ok(None) => !has_branching(f.model()) && forall|tr: Trace| #[trigger]
                    endless_run(old(self).sys(), tr) ==> tf_sat(f.model(), word_of(tr))(0),
                Ok(Some(p)) => !has_branching(f.model()) && refutes(
                    old(self).sys(),
                    f.model(),
                    states_of(p@),
                ),
                Err(EngineError::Eval(_)) => has_branching(f.model()) || !atoms_typed(
                    f.model(),
                    old(self).sys().leaves,
                ),
                Err(EngineError::TooLarge(_)) => width_of(
                    old(self).sys().leaves,
                    old(self).sys().leaves.len(),
                ) + 128 >= VAR_LIMIT,
                Err(EngineError::InfiniteType(_)) => false,
            },
    {
        let ghost o = *self;
        let ghost sys = self.flat.sys();
        proof {
            nnf_defined(f.model(), true);
        }
        let neg = match to_nnf(f, true) {
            Ok(n) => n,
            Err(m) => {
                return Err(EngineError::Eval(m));
            },
        };
        let aut = translate(&neg);
        let ghost up = |e: FE| unprimed(e);
        let ghost cond = |e: FE| is_condition(e, sys.leaves);
        proof {
            nnf_atoms(f.model(), true, up);
            assert(aut.atoms_in(up));
        }
        let labels = match enc_labels(self, &aut) {
            Ok(v) => v,
            Err(x) => {
                proof {
                    if atoms_typed(f.model(), sys.leaves) {
                        nnf_atoms(f.model(), true, cond);
                        assert(aut.atoms_in(cond));
                    }
                }
                return Err(x);
            },
        };
        let n: u32 = bits_for(aut.labels.len());
        if self.width >= VAR_LIMIT - 2 * n {
            return Err(EngineError::TooLarge(own("too many state bits")));
        }
        let w2: u32 = self.width + 2 * n;
        let ghost pr = Prod { es: self.leaves@, sys, aut, base: self.width, n };
        let ghost s1 = *self;
        proof {
            vstd::std_specs::vec::axiom_spec_len(&aut.labels);
            assert(pr.ok());
        }
        let pinit = prod_init(self, &aut, &labels, n, Ghost(pr));
        let ghost s2 = *self;
        proof {
            assert forall|q: int| 0 <= q < labels@.len() implies self.is_sp(
                #[trigger] labels@[q],
                lits_sp(aut.labels@[q]@),
            ) by {
                self.sp_keeps(&s1, labels@[q], lits_sp(aut.labels@[q]@));
            }
        }
        let pmoves = prod_moves(self, &aut, &labels, n, Ghost(pr));
        let ghost s3 = *self;
        let fair = prod_fair(self, &aut, n, Ghost(pr));
        let ghost s4 = *self;
        proof {
            assert forall|k: int| 0 <= k < s4.parts@.len() implies s4.mgr.valid(#[trigger] s4.parts@[k])
                && s4.mgr.depends_on(s4.parts@[k], below(w2)) by {
                assert(s4.mgr.depends_on(s4.parts@[k], below(s4.width)));
                low_widen(&s4.mgr, s4.parts@[k], s4.width, w2);
            }
            assert(is_rel(&s4.mgr, s4.parts@, w2));
            low_keeps(&s4.mgr, &s3.mgr, pmoves, w2);
        }
        let parts = conjoined(&mut self.mgr, &self.parts, pmoves, w2);
        let ghost s5 = *self;
        proof {
            self.follow(&s4);
            s5.follows_all(&o, &s1, &s2, &s3, &s4);
            prod_relation(&s4, &s5, &s3, parts@, pmoves, pr);
            crate::reach::set_keeps(&s5.mgr, &s2.mgr, pinit, w2);
            assert(set_of(&s5.mgr, pinit) =~= pr.init_fun()) by {
                assert forall|x: Asg| #[trigger] set_of(&s5.mgr, pinit)(x) == pr.init_fun()(x) by {
                    assert(set_of(&s5.mgr, pinit)(x) == set_of(&s2.mgr, pinit)(x));
                    assert(s2.mgr.eval(pinit, x) == pr.init(x));
                }
            }
            assert forall|k: int| 0 <= k < fair@.len() implies is_set(&s5.mgr, #[trigger] fair@[k], w2) by {
                crate::reach::set_keeps(&s5.mgr, &s4.mgr, fair@[k], w2);
            }
            assert(sets_of(&s5.mgr, fair@) =~= pr.fair_funs()) by {
                assert forall|k: int| 0 <= k < fair@.len() implies #[trigger] sets_of(&s5.mgr, fair@)[k]
                    == pr.fair_funs()[k] by {
                    assert(is_set(&s4.mgr, fair@[k], w2));
                    crate::reach::set_keeps(&s5.mgr, &s4.mgr, fair@[k], w2);
                    assert(set_of(&s4.mgr, fair@[k]) =~= pr.fair_funs()[k]) by {
                        assert forall|x: Asg| #[trigger] set_of(&s4.mgr, fair@[k])(x) == pr.fair_funs()[k](x) by {
                            assert(s4.mgr.eval(fair@[k], x) == pr.fair(k, x));
                        }
                    }
                }
            }
        }
        let res = fair_search(&mut self.mgr, &parts, w2, pinit, &fair);
        proof {
            self.follow(&s5);
            s5.follows_trans(&o, self);
        }
        match res {
            None => {
                proof {
                    pr.holds_always(f.model(), neg.model());
                }
                Ok(None)
            },
            Some(cubes) => {
                proof {
                    pr.begun(f.model(), neg.model(), cubes@);
                }
                let states = decode_all(&self.leaves, &cubes);
                proof {
                    let q = states_of(states@);
                    assert(q =~= Seq::new(cubes@.len(), |i: int| st(pr.es, asg_of(cubes@[i]@))));
                }
                Ok(Some(states))
            },
        }
    }

    proof fn follows_all(
        &self,
        o: &Symbolic<'m>,
        a: &Symbolic<'m>,
        b: &Symbolic<'m>,
        c: &Symbolic<'m>,
        d: &Symbolic<'m>,
    )
        requires
            a.follows(o),
            b.follows(a),
            c.follows(b),
            d.follows(c),
            self.follows(d),
        ensures
            self.follows(o),
    {
        a.follows_trans(o, b);
        b.follows_trans(o, c);
        c.follows_trans(o, d);
        d.follows_trans(o, self);
    }
}

proof fn low_widen(m: &Mgr, n: NodeId, w: u32, w2: u32)
    requires
        low(m, n, w),
        w <= w2,
    ensures
        low(m, n, w2),
{
    let q = below(w2);
    let p = below(w);
    assert forall|a: Asg, b: Asg| (forall|v: u32| #[trigger] q(v) ==> a(v) == b(v)) implies #[trigger] m.eval(
        n,
        a,
    ) == #[trigger] m.eval(n, b) by {
        assert forall|v: u32| #[trigger] p(v) implies a(v) == b(v) by {
            assert(q(v));
        }
    }
}

/// The relation of the product.
proof fn prod_relation<'m>(
    s4: &Symbolic<'m>,
    s5: &Symbolic<'m>,
    s3: &Symbolic<'m>,
    parts: Seq<NodeId>,
    pmoves: NodeId,
    pr: Prod,
)
    requires
        s4.wf(),
        s4.mgr.keeps_values(&s3.mgr),
        low(&s3.mgr, pmoves, pr.w()),
        pr.es == s4.leaves@,
        pr.sys == s4.sys(),
        pr.base == s4.width,
        forall|x: Asg, y: Asg| #[trigger] s3.mgr.eval(pmoves, join(x, y)) == pr.moves(x, y),
        forall|x: Asg, y: Asg| #[trigger]
            rel_at(&s5.mgr, parts, x, y) == (rel_at(&s4.mgr, s4.parts@, x, y) && s4.mgr.eval(
                pmoves,
                join(x, y),
            )),
    ensures
        rel_of(&s5.mgr, parts) == pr.rel_fun(),
{
    assert forall|x: Asg, y: Asg| #[trigger] rel_of(&s5.mgr, parts)(x, y) == pr.rel_fun()(x, y) by {
        assert(rel_at(&s5.mgr, parts, x, y) == (rel_at(&s4.mgr, s4.parts@, x, y) && s4.mgr.eval(
            pmoves,
            join(x, y),
        )));
        assert(s4.mgr.eval(pmoves, join(x, y)) == s3.mgr.eval(pmoves, join(x, y)));
    }
    assert(rel_of(&s5.mgr, parts) =~= pr.rel_fun());
}

} // verus!
