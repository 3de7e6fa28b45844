//! Explicit-state search: states one by one, found by propagation and enumeration.

use crate::fexpr::{
    all_hold, all_true, clone_fexprs, fe_models, holds, leaf_card, leaf_value, leaf_values, sem, sems, unprimed,
    unprimed_meaning, unprimeds, FExpr, LeafId, Leaves, FE, LT,
};
use crate::flat::{
    allowed, allows, branch_models, branches_allowed, cmd_models, endless_at, every, fires, holds_in, is_part,
    label_list, leaf_types, some, some_cmd, splits, state_leaves, step_leaves, takes, takes_all, takes_branch,
    takes_cmd, tn_models, Cmd, FlatCmd, FlatModule, State, Sys, TransNode, TN,
};
use crate::num::Int;
use crate::partial::{
    clean, cleans, fits, full, kind_has, leaf_kind, member, partly, peval, prepared, settled, slot, slots, Kind,
};
use crate::prime::{prime_all, primeds, primeds_meaning};
use crate::text::{join, joined, own, put, views};
use crate::value::{clone_values, models, same_values, Val, Value};
use vstd::prelude::*;

verus! {

/// Why an engine came to no result.
#[derive(Debug)]
pub enum EngineError {
    /// A leaf has infinitely many values; its name.
    InfiniteType(String),
    /// A resource limit was exceeded.
    TooLarge(String),
    /// An expression could not be evaluated.
    Eval(String),
}

impl EngineError {
    /// The printed form.
    pub fn text(&self) -> (r: String)
        ensures
            r@ == (match self {
                EngineError::InfiniteType(v) =>
                    "Finite type expected. The type of the variable \""@ + v@ + "\" is not finite."@,
                EngineError::TooLarge(m) => "State space too large: "@ + m@,
                EngineError::Eval(m) => m@,
            }),
    {
        match self {
            EngineError::InfiniteType(v) => {
                let mut out = own("Finite type expected. The type of the variable \"");
                put(&mut out, v.as_str());
                put(&mut out, "\" is not finite.");
                out
            },
            EngineError::TooLarge(m) => {
                let mut out = own("State space too large: ");
                put(&mut out, m.as_str());
                out
            },
            EngineError::Eval(m) => m.clone(),
        }
    }
}

/// The state has the values that are known.
pub open spec fn agrees_with(v: State, s: Seq<Option<Val>>) -> bool {
    &&& v.len() == s.len()
    &&& forall|i: int| 0 <= i < v.len() && s[i] is Some ==> #[trigger] v[i] == s[i]->0
}

/// The value is one of the leaf's type.
pub open spec fn of_type(t: LT, v: Val) -> bool {
    leaf_values(t) is Some && leaf_values(t)->0.contains(v)
}

/// Each value is one of its leaf's type.
pub open spec fn typed_state(ts: Seq<LT>, v: State) -> bool {
    forall|i: int| 0 <= i < v.len() ==> of_type(ts[i], #[trigger] v[i])
}

/// Each known value is one of its leaf's type.
pub open spec fn typed_slots(ts: Seq<LT>, s: Seq<Option<Val>>) -> bool {
    &&& s.len() <= ts.len()
    &&& forall|i: int| 0 <= i < s.len() && (#[trigger] s[i]) is Some ==> of_type(ts[i], s[i]->0)
}

/// All conditions are such that they have truth values wherever the leaves have values.
pub open spec fn all_clean(cs: Seq<FE>, ts: Seq<LT>, primed: bool) -> bool {
    forall|k: int| 0 <= k < cs.len() ==> clean(#[trigger] cs[k], ts, primed) == Some(Kind::B)
}

/// Where there are `c` values of the current state and `n` of the next, the conditions can be evaluated.
pub open spec fn able(ts: Seq<LT>, cs: Seq<FE>, c: nat, n: nat) -> bool {
    c >= ts.len() && (all_clean(cs, ts, false) || (n >= ts.len() && all_clean(cs, ts, true)))
}

/// The number of states, a leaf without values counted as one with a single value.
pub open spec fn space(ts: Seq<LT>, n: int) -> nat
    decreases n,
{
    if n <= 0 || n > ts.len() {
        1
    } else {
        space(ts, n - 1) * (match leaf_card(ts[n - 1]) {
            Some(c) => if c == 0 {
                1
            } else {
                c
            },
            None => 1,
        })
    }
}

/// There are more pairs of states than `max`, or more leaves than can be counted.
pub open spec fn too_wide(ts: Seq<LT>, max: u64) -> bool {
    space(ts, ts.len() as int) * space(ts, ts.len() as int) > max || ts.len() + ts.len() > usize::MAX
}

proof fn space_least(ts: Seq<LT>, n: int)
    ensures
        space(ts, n) >= 1,
    decreases n,
{
    if 0 < n <= ts.len() {
        space_least(ts, n - 1);
        let c: nat = match leaf_card(ts[n - 1]) {
            Some(c) => if c == 0 {
                1
            } else {
                c
            },
            None => 1,
        };
        assert(space(ts, n - 1) * c >= 1) by (nonlinear_arith)
            requires
                space(ts, n - 1) >= 1,
                c >= 1,
        ;
    }
}

proof fn space_grows(ts: Seq<LT>, a: int, b: int)
    requires
        0 <= a <= b <= ts.len(),
    ensures
        space(ts, a) <= space(ts, b),
    decreases b,
{
    if a < b {
        space_grows(ts, a, b - 1);
        let c: nat = match leaf_card(ts[b - 1]) {
            Some(c) => if c == 0 {
                1
            } else {
                c
            },
            None => 1,
        };
        let p = space(ts, b - 1);
        assert(p * c >= p) by (nonlinear_arith)
            requires
                c >= 1,
        ;
    }
}

proof fn typed_prepared(ts: Seq<LT>, cur: Seq<Option<Val>>, next: Seq<Option<Val>>)
    requires
        typed_slots(ts, cur),
        typed_slots(ts, next),
        cur.len() >= ts.len(),
    ensures
        prepared(ts, cur, next, false),
        next.len() >= ts.len() ==> prepared(ts, cur, next, true),
{
    assert forall|i: int| 0 <= i < cur.len() && i < ts.len() && (#[trigger] cur[i]) is Some implies kind_has(
        leaf_kind(ts[i]),
        cur[i]->0,
    ) by {
        typed_kind(ts[i], cur[i]->0);
    }
    assert forall|i: int| 0 <= i < next.len() && i < ts.len() && (#[trigger] next[i]) is Some implies kind_has(
        leaf_kind(ts[i]),
        next[i]->0,
    ) by {
        typed_kind(ts[i], next[i]->0);
    }
}

/// What can be evaluated without next values speaks of the current state only.
proof fn clean_unprimed(e: FE, ts: Seq<LT>)
    requires
        clean(e, ts, false) is Some,
    ensures
        unprimed(e),
    decreases e, 1nat,
{
    match e {
        FE::Const(_) => {},
        FE::Var(_, _) => {},
        FE::Not(a) => clean_unprimed(*a, ts),
        FE::Neg(a) => clean_unprimed(*a, ts),
        FE::And(es) => cleans_unprimed(es, ts),
        FE::Or(es) => cleans_unprimed(es, ts),
        FE::Add(es) => cleans_unprimed(es, ts),
        FE::Mul(es) => cleans_unprimed(es, ts),
        FE::Ite(c, t, f) => {
            clean_unprimed(*c, ts);
            clean_unprimed(*t, ts);
            clean_unprimed(*f, ts);
        },
        FE::Eq(a, b) => {
            clean_unprimed(*a, ts);
            clean_unprimed(*b, ts);
        },
        FE::Lt(a, b) => {
            clean_unprimed(*a, ts);
            clean_unprimed(*b, ts);
        },
        FE::Le(a, b) => {
            clean_unprimed(*a, ts);
            clean_unprimed(*b, ts);
        },
        FE::Div(a, b) => {
            clean_unprimed(*a, ts);
            assert(unprimed(*b));
        },
        FE::IDiv(a, b) => {
            clean_unprimed(*a, ts);
            assert(unprimed(*b));
        },
        FE::Mod(a, b) => {
            clean_unprimed(*a, ts);
            assert(unprimed(*b));
        },
    }
}

proof fn cleans_unprimed(es: Seq<FE>, ts: Seq<LT>)
    requires
        forall|k: int| 0 <= k < es.len() ==> (#[trigger] cleans(es, ts, false)[k]) is Some,
    ensures
        all_true(unprimeds(es)),
    decreases es, 0nat,
{
    assert forall|k: int| 0 <= k < es.len() implies #[trigger] unprimeds(es)[k] by {
        assert(cleans(es, ts, false)[k] is Some);
        clean_unprimed(es[k], ts);
    }
}

proof fn typed_kind(t: LT, v: Val)
    requires
        of_type(t, v),
    ensures
        kind_has(leaf_kind(t), v),
{
    let vs = leaf_values(t)->0;
    let i = choose|i: int| 0 <= i < vs.len() && vs[i] == v;
    assert(v == leaf_value(t, i));
}

/// All conditions hold.
pub open spec fn hold_all(cs: Seq<FE>, x: Leaves) -> bool {
    forall|k: int| 0 <= k < cs.len() ==> holds(sem(#[trigger] cs[k], x))
}

/// The two states solve the conditions and have the values that are known.
pub open spec fn solution(
    ts: Seq<LT>,
    cs: Seq<FE>,
    cur: Seq<Option<Val>>,
    next: Seq<Option<Val>>,
    c: State,
    n: State,
) -> bool {
    &&& agrees_with(c, cur)
    &&& agrees_with(n, next)
    &&& typed_state(ts, c)
    &&& typed_state(ts, n)
    &&& hold_all(cs, step_leaves(c, n))
}

proof fn solution_fits(
    ts: Seq<LT>,
    cs: Seq<FE>,
    cur: Seq<Option<Val>>,
    next: Seq<Option<Val>>,
    c: State,
    n: State
)
    requires
        agrees_with(c, cur),
        agrees_with(n, next),
    ensures
        fits(cur, next, step_leaves(c, n)),
{
    let x = step_leaves(c, n);
    assert forall|l: LeafId| (l as int) < cur.len() && cur[l as int] is Some implies #[trigger] x(l, false)
        == cur[l as int] by {
        assert(c[l as int] == cur[l as int]->0);
    }
    assert forall|l: LeafId| (l as int) < next.len() && next[l as int] is Some implies #[trigger] x(l, true)
        == next[l as int] by {
        assert(n[l as int] == next[l as int]->0);
    }
}

/// The conjuncts of a condition.
fn flatten_conj(e: &FExpr, out: &mut Vec<FExpr>)
    ensures
        forall|x: Leaves| #[trigger]
            hold_all(fe_models(final(out)@), x) == (hold_all(fe_models(old(out)@), x) && holds(sem(e.model(), x))),
        forall|ts: Seq<LT>, primed: bool| #[trigger]
            all_clean(fe_models(old(out)@), ts, primed) && clean(e.model(), ts, primed) == Some(Kind::B) ==> all_clean(
                fe_models(final(out)@),
                ts,
                primed,
            ),
    decreases e,
{
    let ghost o = fe_models(out@);
    match e {
        FExpr::And(es) => {
            let ghost ms = fe_models(es@);
            let mut i: usize = 0;
            while i < es.len()
                invariant
                    i <= es@.len(),
                    decreases_to!(e => es),
                    ms == fe_models(es@),
                    forall|x: Leaves| #[trigger]
                        hold_all(fe_models(out@), x) == (hold_all(o, x) && hold_all(ms.take(i as int), x)),
                    e.model() == FE::And(ms),
                    o == fe_models(old(out)@),
                    forall|ts: Seq<LT>, primed: bool| #[trigger]
                        all_clean(o, ts, primed) && clean(e.model(), ts, primed) == Some(Kind::B) ==> all_clean(
                            fe_models(out@),
                            ts,
                            primed,
                        ),
                decreases es.len() - i,
            {
                let ghost b = fe_models(out@);
                flatten_conj(&es[i], out);
                proof {
                    assert forall|ts: Seq<LT>, primed: bool| #[trigger]
                        all_clean(o, ts, primed) && clean(e.model(), ts, primed) == Some(Kind::B) implies all_clean(
                        fe_models(out@),
                        ts,
                        primed,
                    ) by {
                        assert(all_clean(b, ts, primed));
                        assert(cleans(ms, ts, primed)[i as int] == clean(es@[i as int].model(), ts, primed));
                    }
                    assert forall|x: Leaves| #[trigger] hold_all(fe_models(out@), x) == (hold_all(o, x) && hold_all(
                        ms.take(i + 1),
                        x,
                    )) by {
                        assert(hold_all(b, x) == (hold_all(o, x) && hold_all(ms.take(i as int), x)));
                        hold_push(ms.take(i as int), ms[i as int], x);
                        assert(ms.take(i as int).push(ms[i as int]) =~= ms.take(i + 1));
                    }
                }
                i += 1;
            }
            proof {
                assert(ms.take(i as int) =~= ms);
                assert forall|x: Leaves| hold_all(ms, x) == holds(sem(e.model(), x)) by {
                    let ss = sems(ms, x);
                    if all_hold(ss) {
                        assert forall|k: int| 0 <= k < ms.len() implies holds(sem(#[trigger] ms[k], x)) by {
                            assert(holds(ss[k]));
                        }
                    }
                    if hold_all(ms, x) {
                        assert forall|k: int| 0 <= k < ss.len() implies holds(#[trigger] ss[k]) by {
                            assert(holds(sem(ms[k], x)));
                        }
                    }
                }
            }
        },
        _ => {
            let ghost b = out@;
            let c = e.clone();
            out.push(c);
            proof {
                assert(fe_models(out@) =~= o.push(e.model()));
                assert forall|x: Leaves| #[trigger] hold_all(fe_models(out@), x) == (hold_all(o, x) && holds(
                    sem(e.model(), x),
                )) by {
                    hold_push(o, e.model(), x);
                }
            }
        },
    }
}

proof fn hold_push(cs: Seq<FE>, c: FE, x: Leaves)
    ensures
        hold_all(cs.push(c), x) == (hold_all(cs, x) && holds(sem(c, x))),
{
    let ds = cs.push(c);
    if hold_all(ds, x) {
        assert forall|k: int| 0 <= k < cs.len() implies holds(sem(#[trigger] cs[k], x)) by {
            assert(ds[k] == cs[k]);
        }
        assert(holds(sem(ds[cs.len() as int], x)));
    }
    if hold_all(cs, x) && holds(sem(c, x)) {
        assert forall|k: int| 0 <= k < ds.len() implies holds(sem(#[trigger] ds[k], x)) by {
            if k < cs.len() {
                assert(ds[k] == cs[k]);
            }
        }
    }
}

proof fn hold_plus(a: Seq<FE>, b: Seq<FE>, x: Leaves)
    ensures
        hold_all(a + b, x) == (hold_all(a, x) && hold_all(b, x)),
{
    let d = a + b;
    if hold_all(d, x) {
        assert forall|k: int| 0 <= k < a.len() implies holds(sem(#[trigger] a[k], x)) by {
            assert(d[k] == a[k]);
        }
        assert forall|k: int| 0 <= k < b.len() implies holds(sem(#[trigger] b[k], x)) by {
            assert(d[a.len() + k] == b[k]);
        }
    }
}

/// A leaf that an equation gives a value: the leaf, whether it is primed, and the value.
fn unit_equation(c: &FExpr, cur: &Vec<Option<Value>>, next: &Vec<Option<Value>>) -> (r: Result<
    Option<(LeafId, bool, Value)>,
    EngineError,
>)
    ensures
        match r {
            Ok(Some((l, p, v))) => forall|x: Leaves| #[trigger]
                fits(slots(cur@), slots(next@), x) ==> holds(sem(c.model(), x)) == (x(l, p) == Some(v.model())),
            Ok(None) => true,
            Err(x) => x is Eval,
        },
        forall|ts: Seq<LT>, primed: bool| #[trigger]
            prepared(ts, slots(cur@), slots(next@), primed) && clean(c.model(), ts, primed) is Some ==> r is Ok,
{
    match c {
        FExpr::Eq(a, b) => {
            match &**a {
                FExpr::Var(l, p) => match peval(b, cur, next) {
                    Err(x) => {
                        return Err(x);
                    },
                    Ok(Some(v)) => {
                        proof {
                            assert(a.model() == FE::Var(*l, *p));
                            assert forall|x: Leaves| #[trigger] fits(slots(cur@), slots(next@), x) implies holds(
                                sem(c.model(), x),
                            ) == (x(*l, *p) == Some(v.model())) by {
                                assert(sem(b.model(), x) == Some(v.model()));
                                assert(sem(a.model(), x) == x(*l, *p));
                            }
                        }
                        return Ok(Some((*l, *p, v)));
                    },
                    Ok(None) => {},
                },
                _ => {},
            }
            match &**b {
                FExpr::Var(l, p) => match peval(a, cur, next) {
                    Err(x) => Err(x),
                    Ok(Some(v)) => {
                        proof {
                            assert(b.model() == FE::Var(*l, *p));
                            assert forall|x: Leaves| #[trigger] fits(slots(cur@), slots(next@), x) implies holds(
                                sem(c.model(), x),
                            ) == (x(*l, *p) == Some(v.model())) by {
                                assert(sem(a.model(), x) == Some(v.model()));
                                assert(sem(b.model(), x) == x(*l, *p));
                            }
                        }
                        Ok(Some((*l, *p, v)))
                    },
                    Ok(None) => Ok(None),
                },
                _ => Ok(None),
            }
        },
        _ => Ok(None),
    }
}

/// An explicit-state engine.
pub struct Explicit<'m> {
    pub flat: &'m FlatModule,
    /// How many states are looked at before the engine gives up.
    pub max_states: usize,
    /// How many combinations of unknown values are tried at once before the engine gives up.
    pub max_enum: u64,
}

/// All leaves of the system have finitely many values.
pub open spec fn finite(ts: Seq<LT>) -> bool {
    forall|i: int| 0 <= i < ts.len() ==> leaf_values(#[trigger] ts[i]) is Some
}

/// The result of one round of propagation: what is left to solve, or nothing where there is no
/// solution.
spec fn pruned(
    ts: Seq<LT>,
    cs: Seq<FE>,
    cur: Seq<Option<Val>>,
    next: Seq<Option<Val>>,
    ds: Seq<FE>,
    cur2: Seq<Option<Val>>,
    next2: Seq<Option<Val>>,
) -> bool {
    forall|c: State, n: State|
        solution(ts, cs, cur, next, c, n) == #[trigger] solution(ts, ds, cur2, next2, c, n)
}

/// No states solve the conditions.
spec fn unsolvable(ts: Seq<LT>, cs: Seq<FE>, cur: Seq<Option<Val>>, next: Seq<Option<Val>>) -> bool {
    forall|c: State, n: State| !#[trigger] solution(ts, cs, cur, next, c, n)
}

impl<'m> Explicit<'m> {
    /// The system.
    pub open spec fn sys(&self) -> Sys {
        self.flat.sys()
    }

    /// An engine for a system all of whose leaves have finitely many values.
    pub fn new(flat: &'m FlatModule) -> (r: Result<Explicit<'m>, EngineError>)
        ensures
            match r {
                Ok(e) => e.flat == flat && finite(flat.sys().leaves) && e.max_states == 20_000_000 && e.max_enum
                    == 2_000_000,
                Err(x) => x matches EngineError::InfiniteType(n) && exists|l: int| #[trigger]
                    endless_at(flat.leaves@, l) && flat.leaves@[l].name@ == n@,
            },
    {
        let ghost ts = flat.sys().leaves;
        let mut i: usize = 0;
        while i < flat.leaves.len()
            invariant
                i <= flat.leaves@.len(),
                ts == flat.sys().leaves,
                ts == leaf_types(flat.leaves@),
                forall|k: int| 0 <= k < i ==> leaf_values(#[trigger] ts[k]) is Some,
            decreases flat.leaves.len() - i,
        {
            let finite = match &flat.leaves[i].ty {
                crate::fexpr::LeafType::Bool => true,
                crate::fexpr::LeafType::Range(_, _) => true,
                crate::fexpr::LeafType::Scalar(_, _) => true,
                _ => false,
            };
            proof {
                assert(ts[i as int] == flat.leaves@[i as int].ty@);
            }
            if !finite {
                proof {
                    assert forall|j: int| 0 <= j < i implies leaf_values((#[trigger] flat.leaves@[j]).ty@) is Some by {
                        assert(leaf_values(ts[j]) is Some);
                    }
                    assert(endless_at(flat.leaves@, i as int));
                }
                return Err(EngineError::InfiniteType(flat.leaves[i].name.clone()));
            }
            i += 1;
        }
        Ok(Explicit { flat, max_states: 20_000_000, max_enum: 2_000_000 })
    }

    /// One round of propagation: settled conditions are dropped, and equations give values.
    fn propagate(
        &self,
        active: Vec<FExpr>,
        cur: &mut Vec<Option<Value>>,
        next: &mut Vec<Option<Value>>,
    ) -> (r: Result<Option<Vec<FExpr>>, EngineError>)
        requires
            typed_slots(self.sys().leaves, slots(old(cur)@)),
            typed_slots(self.sys().leaves, slots(old(next)@)),
        ensures
            match r {
                Ok(Some(left)) => {
                    &&& left@.len() <= active@.len()
                    &&& final(cur)@.len() == old(cur)@.len()
                    &&& final(next)@.len() == old(next)@.len()
                    &&& able(self.sys().leaves, fe_models(active@), old(cur)@.len(), old(next)@.len()) ==> able(
                        self.sys().leaves,
                        fe_models(left@),
                        old(cur)@.len(),
                        old(next)@.len(),
                    )
                    &&& typed_slots(self.sys().leaves, slots(final(cur)@))
                    &&& typed_slots(self.sys().leaves, slots(final(next)@))
                    &&& pruned(
                        self.sys().leaves,
                        fe_models(active@),
                        slots(old(cur)@),
                        slots(old(next)@),
                        fe_models(left@),
                        slots(final(cur)@),
                        slots(final(next)@),
                    )
                },
                Ok(None) => unsolvable(
                    self.sys().leaves,
                    fe_models(active@),
                    slots(old(cur)@),
                    slots(old(next)@),
                ),
                Err(x) => x is Eval && !able(
                    self.sys().leaves,
                    fe_models(active@),
                    old(cur)@.len(),
                    old(next)@.len(),
                ),
            },
    {
        let ghost ts = self.sys().leaves;
        let ghost as_ = fe_models(active@);
        let ghost cur0 = slots(cur@);
        let ghost next0 = slots(next@);
        let mut left: Vec<FExpr> = Vec::new();
        let mut i: usize = 0;
        proof {
            assert(fe_models(left@) + as_.skip(0) =~= as_);
        }
        while i < active.len()
            invariant
                i <= active@.len(),
                left@.len() <= i,
                ts == self.sys().leaves,
                ts == leaf_types(self.flat.leaves@),
                as_ == fe_models(active@),
                cur0 == slots(old(cur)@),
                next0 == slots(old(next)@),
                typed_slots(ts, slots(cur@)),
                typed_slots(ts, slots(next@)),
                cur@.len() == old(cur)@.len(),
                next@.len() == old(next)@.len(),
                forall|p: bool| #[trigger] all_clean(as_, ts, p) ==> all_clean(fe_models(left@), ts, p),
                pruned(ts, as_, cur0, next0, fe_models(left@) + as_.skip(i as int), slots(cur@), slots(next@)),
            decreases active.len() - i,
        {
            let c = &active[i];
            let ghost cm = c.model();
            let ghost ls = fe_models(left@);
            let ghost rest = as_.skip(i + 1);
            let ghost cu = slots(cur@);
            let ghost ne = slots(next@);
            proof {
                assert(as_[i as int] == cm);
                assert(as_.skip(i as int) =~= seq![cm] + rest);
                if able(ts, as_, cur@.len(), next@.len()) {
                    typed_prepared(ts, cu, ne);
                    assert(all_clean(as_, ts, false) ==> clean(as_[i as int], ts, false) == Some(Kind::B));
                    assert(all_clean(as_, ts, true) ==> clean(as_[i as int], ts, true) == Some(Kind::B));
                }
            }
            let v = match peval(c, cur, next) {
                Ok(v) => v,
                Err(x) => {
                    return Err(x);
                },
            };
            match v {
                Some(Value::Bool(true)) => {
                    proof {
                        assert forall|p: State, n: State| solution(ts, as_, cur0, next0, p, n) == #[trigger] solution(
                            ts,
                            ls + rest,
                            cu,
                            ne,
                            p,
                            n,
                        ) by {
                            assert(solution(ts, as_, cur0, next0, p, n) == solution(
                                ts,
                                ls + as_.skip(i as int),
                                cu,
                                ne,
                                p,
                                n,
                            ));
                            drop_settled(ts, ls, cm, rest, cu, ne, p, n);
                        }
                    }
                },
                Some(Value::Bool(false)) => {
                    proof {
                        assert forall|p: State, n: State| !#[trigger] solution(ts, as_, cur0, next0, p, n) by {
                            assert(solution(ts, as_, cur0, next0, p, n) == solution(
                                ts,
                                ls + as_.skip(i as int),
                                cu,
                                ne,
                                p,
                                n,
                            ));
                            split_active(ts, ls, cm, rest, cu, ne, p, n);
                        }
                    }
                    return Ok(None);
                },
                Some(_) => {
                    return Err(crate::arith::bad("boolean expected"));
                },
                None => {
                    let unit = match unit_equation(c, cur, next) {
                        Ok(u) => u,
                        Err(x) => {
                            return Err(x);
                        },
                    };
                    let mut used = false;
                    match unit {
                        Some((l, p, val)) => {
                            let at: usize = l as usize;
                            let open = if p {
                                at < next.len() && next[at].is_none()
                            } else {
                                at < cur.len() && cur[at].is_none()
                            };
                            if open {
                                used = true;
                                let ghost vm = val.model();
                                proof {
                                    assert(ts[at as int] == self.flat.leaves@[at as int].ty@);
                                    assert(cu.len() == cur@.len() && ne.len() == next@.len());
                                    assert(!p ==> cu[at as int] is None);
                                    assert(p ==> ne[at as int] is None);
                                }
                                if !member(&self.flat.leaves[at].ty, &val) {
                                    proof {
                                        assert forall|q: State, n: State| !#[trigger] solution(
                                            ts,
                                            as_,
                                            cur0,
                                            next0,
                                            q,
                                            n,
                                        ) by {
                                            assert(solution(ts, as_, cur0, next0, q, n) == solution(
                                                ts,
                                                ls + as_.skip(i as int),
                                                cu,
                                                ne,
                                                q,
                                                n,
                                            ));
                                            split_active(ts, ls, cm, rest, cu, ne, q, n);
                                            if solution(ts, ls + as_.skip(i as int), cu, ne, q, n) {
                                                assert(step_leaves(q, n)(l, p) == Some(vm));
                                                if p {
                                                    assert(of_type(ts[at as int], n[at as int]));
                                                } else {
                                                    assert(of_type(ts[at as int], q[at as int]));
                                                }
                                            }
                                        }
                                    }
                                    return Ok(None);
                                }
                                if p {
                                    next.set(at, Some(val));
                                    assert(slots(next@) =~= ne.update(at as int, Some(vm)));
                                } else {
                                    cur.set(at, Some(val));
                                    assert(slots(cur@) =~= cu.update(at as int, Some(vm)));
                                }
                                proof {
                                    assert forall|q: State, n: State| solution(ts, as_, cur0, next0, q, n)
                                        == #[trigger] solution(
                                            ts,
                                            ls + rest,
                                            slots(cur@),
                                            slots(next@),
                                            q,
                                            n
                                        ) by {
                                        assert(solution(ts, as_, cur0, next0, q, n) == solution(
                                            ts,
                                            ls + as_.skip(i as int),
                                            cu,
                                            ne,
                                            q,
                                            n,
                                        ));
                                        assign_slot(
                                            ts,
                                            ls,
                                            cm,
                                            rest,
                                            cu,
                                            ne,
                                            slots(cur@),
                                            slots(next@),
                                            l,
                                            p,
                                            vm,
                                            q,
                                            n
                                        );
                                    }
                                }
                            }
                        },
                        None => {},
                    }
                    if !used {
                        let ghost l0 = left@;
                        left.push(c.clone());
                        proof {
                            assert(fe_models(left@) =~= ls.push(cm));
                            assert forall|p: bool| #[trigger] all_clean(as_, ts, p) implies all_clean(
                                fe_models(left@),
                                ts,
                                p,
                            ) by {
                                assert(clean(as_[i as int], ts, p) == Some(Kind::B));
                                assert(all_clean(ls, ts, p));
                                assert forall|q: int| 0 <= q < ls.len() + 1 implies clean(
                                    #[trigger] fe_models(left@)[q],
                                    ts,
                                    p,
                                ) == Some(Kind::B) by {
                                    if q < ls.len() {
                                        assert(fe_models(left@)[q] == ls[q]);
                                    }
                                }
                            }
                            assert(ls + as_.skip(i as int) =~= ls.push(cm) + rest);
                        }
                    }
                },
            }
            i += 1;
        }
        proof {
            assert(fe_models(left@) + as_.skip(i as int) =~= fe_models(left@));
        }
        Ok(Some(left))
    }
}

proof fn split_active(
    ts: Seq<LT>,
    ls: Seq<FE>,
    c: FE,
    rest: Seq<FE>,
    cur: Seq<Option<Val>>,
    next: Seq<Option<Val>>,
    p: State,
    n: State,
)
    ensures
        solution(
            ts,
            ls + (seq![c] + rest),
            cur,
            next,
            p,
            n
        ) == (solution(ts, ls + rest, cur, next, p, n) && holds(
            sem(c, step_leaves(p, n)),
        )),
        solution(ts, ls + (seq![c] + rest), cur, next, p, n) ==> fits(cur, next, step_leaves(p, n)),
        solution(ts, ls + rest, cur, next, p, n) ==> fits(cur, next, step_leaves(p, n)),
{
    let x = step_leaves(p, n);
    hold_plus(ls, seq![c] + rest, x);
    hold_plus(seq![c], rest, x);
    hold_plus(ls, rest, x);
    assert(hold_all(seq![c], x) == holds(sem(c, x))) by {
        assert(seq![c][0] == c);
    }
    if agrees_with(p, cur) && agrees_with(n, next) {
        solution_fits(ts, ls, cur, next, p, n);
    }
}

proof fn drop_settled(
    ts: Seq<LT>,
    ls: Seq<FE>,
    c: FE,
    rest: Seq<FE>,
    cur: Seq<Option<Val>>,
    next: Seq<Option<Val>>,
    p: State,
    n: State,
)
    requires
        partly(c, cur, next, Some(Val::Bool(true))),
    ensures
        solution(ts, ls + (seq![c] + rest), cur, next, p, n) == solution(ts, ls + rest, cur, next, p, n),
{
    split_active(ts, ls, c, rest, cur, next, p, n);
}

proof fn assign_slot(
    ts: Seq<LT>,
    ls: Seq<FE>,
    c: FE,
    rest: Seq<FE>,
    cur: Seq<Option<Val>>,
    next: Seq<Option<Val>>,
    cur2: Seq<Option<Val>>,
    next2: Seq<Option<Val>>,
    l: LeafId,
    p: bool,
    v: Val,
    q: State,
    n: State,
)
    requires
        forall|x: Leaves| #[trigger] fits(cur, next, x) ==> holds(sem(c, x)) == (x(l, p) == Some(v)),
        p ==> (l as int) < next.len() && next[l as int] is None && cur2 == cur
            && next2 == next.update(l as int, Some(v)),
        !p ==> (l as int) < cur.len() && cur[l as int] is None && next2 == next
            && cur2 == cur.update(l as int, Some(v)),
    ensures
        solution(ts, ls + (seq![c] + rest), cur, next, q, n) == solution(ts, ls + rest, cur2, next2, q, n),
{
    split_active(ts, ls, c, rest, cur, next, q, n);
    let x = step_leaves(q, n);
    if solution(ts, ls + (seq![c] + rest), cur, next, q, n) {
        assert(x(l, p) == Some(v));
        assert forall|i: int| 0 <= i < q.len() && cur2[i] is Some implies #[trigger] q[i] == cur2[i]->0 by {
            if !p && i == l {
            } else {
                assert(cur2[i] == cur[i]);
            }
        }
        assert forall|i: int| 0 <= i < n.len() && next2[i] is Some implies #[trigger] n[i] == next2[i]->0 by {
            if p && i == l {
            } else {
                assert(next2[i] == next[i]);
            }
        }
    }
    if solution(ts, ls + rest, cur2, next2, q, n) {
        assert forall|i: int| 0 <= i < q.len() && cur[i] is Some implies #[trigger] q[i] == cur[i]->0 by {
            assert(cur2[i] == cur[i]);
        }
        assert forall|i: int| 0 <= i < n.len() && next[i] is Some implies #[trigger] n[i] == next[i]->0 by {
            assert(next2[i] == next[i]);
        }
        assert(fits(cur, next, x)) by {
            solution_fits(ts, ls, cur, next, q, n);
        }
        if p {
            assert(n[l as int] == next2[l as int]->0);
        } else {
            assert(q[l as int] == cur2[l as int]->0);
        }
        assert(x(l, p) == Some(v));
    }
}


/// The contents of pairs of states.
pub open spec fn pair_models(v: Seq<(Vec<Value>, Vec<Value>)>) -> Seq<(State, State)> {
    Seq::new(v.len(), |i: int| (models(v[i].0@), models(v[i].1@)))
}

/// The pairs are just the solutions.
spec fn lists(
    v: Seq<(State, State)>,
    ts: Seq<LT>,
    cs: Seq<FE>,
    cur: Seq<Option<Val>>,
    next: Seq<Option<Val>>,
) -> bool {
    forall|c: State, n: State| v.contains((c, n)) == #[trigger] solution(ts, cs, cur, next, c, n)
}

/// The values of full slots.
fn settled_values(v: &Vec<Option<Value>>) -> (r: Vec<Value>)
    requires
        full(slots(v@)),
    ensures
        models(r@).len() == v@.len(),
        forall|i: int| 0 <= i < v@.len() ==> Some(#[trigger] models(r@)[i]) == slots(v@)[i],
{
    let mut out: Vec<Value> = Vec::new();
    let mut i: usize = 0;
    while i < v.len()
        invariant
            i <= v@.len(),
            out@.len() == i,
            full(slots(v@)),
            forall|k: int| 0 <= k < i ==> Some((#[trigger] out@[k]).model()) == slots(v@)[k],
        decreases v.len() - i,
    {
        proof {
            assert(slots(v@)[i as int] is Some);
        }
        match &v[i] {
            Some(x) => out.push(x.clone()),
            None => {
                assert(false);
            },
        }
        i += 1;
    }
    proof {
        assert forall|k: int| 0 <= k < v@.len() implies Some(#[trigger] models(out@)[k]) == slots(v@)[k] by {
            assert(models(out@)[k] == out@[k].model());
        }
    }
    out
}

impl<'m> Explicit<'m> {
    /// Tries all values for the slots from `i` on; the slots of the next state come after those of
    /// the current state.
    fn enumerate(
        &self,
        active: &Vec<FExpr>,
        cur: &mut Vec<Option<Value>>,
        next: &mut Vec<Option<Value>>,
        i: usize,
        out: &mut Vec<(Vec<Value>, Vec<Value>)>,
    ) -> (r: Result<(), EngineError>)
        requires
            finite(self.sys().leaves),
            typed_slots(self.sys().leaves, slots(old(cur)@)),
            typed_slots(self.sys().leaves, slots(old(next)@)),
            i <= old(cur)@.len() + old(next)@.len() <= usize::MAX,
            forall|k: int| 0 <= k < i && k < old(cur)@.len() ==> (#[trigger] slots(old(cur)@)[k]) is Some,
            forall|k: int|
                0 <= k < i - old(cur)@.len() ==> (#[trigger] slots(old(next)@)[k]) is Some,
        ensures
            slots(final(cur)@) == slots(old(cur)@),
            slots(final(next)@) == slots(old(next)@),
            match r {
                Ok(()) => forall|c: State, n: State| #[trigger]
                    pair_models(final(out)@).contains((c, n)) == (pair_models(old(out)@).contains((c, n)) || solution(
                        self.sys().leaves,
                        fe_models(active@),
                        slots(old(cur)@),
                        slots(old(next)@),
                        c,
                        n,
                    )),
                Err(x) => x is Eval && !able(
                    self.sys().leaves,
                    fe_models(active@),
                    old(cur)@.len(),
                    old(next)@.len(),
                ),
            },
        decreases old(cur)@.len() + old(next)@.len() - i,
    {
        let ghost ts = self.sys().leaves;
        let ghost cs = fe_models(active@);
        let ghost cu = slots(cur@);
        let ghost ne = slots(next@);
        let ghost out0 = pair_models(out@);
        let m: usize = cur.len();
        if i == m + next.len() {
            return self.test_one(active, cur, next, out);
        }
        let primed = i >= m;
        let at: usize = if primed {
            i - m
        } else {
            i
        };
        let known = if primed {
            next[at].is_some()
        } else {
            cur[at].is_some()
        };
        proof {
            assert(!primed ==> cu[at as int] == slot(cur@[at as int]));
            assert(primed ==> ne[at as int] == slot(next@[at as int]));
        }
        if known {
            return self.enumerate(active, cur, next, i + 1, out);
        }
        proof {
            assert(ts == leaf_types(self.flat.leaves@));
            assert(ts[at as int] == self.flat.leaves@[at as int].ty@);
            assert(leaf_values(ts[at as int]) is Some);
        }
        let values = match self.flat.leaves[at].ty.values() {
            Some(v) => v,
            None => {
                assert(false);
                Vec::new()
            },
        };
        let ghost vs = models(values@);
        let mut k: usize = 0;
        while k < values.len()
            invariant
                k <= values@.len(),
                vs == models(values@),
                ts == self.sys().leaves,
                cs == fe_models(active@),
                finite(ts),
                m == cur@.len(),
                cur@.len() == cu.len(),
                next@.len() == ne.len(),
                i < cu.len() + ne.len() <= usize::MAX,
                primed == (i >= m),
                at == (if primed {
                    i - m
                } else {
                    i as int
                }),
                leaf_values(ts[at as int]) == Some(vs),
                typed_slots(ts, cu),
                typed_slots(ts, ne),
                !primed ==> cu[at as int] is None && slots(next@) == ne && forall|j: int|
                    0 <= j < cu.len() && j != at ==> #[trigger] slots(cur@)[j] == cu[j],
                primed ==> ne[at as int] is None && slots(cur@) == cu && forall|j: int|
                    0 <= j < ne.len() && j != at ==> #[trigger] slots(next@)[j] == ne[j],
                forall|j: int| 0 <= j < i && j < cu.len() ==> (#[trigger] cu[j]) is Some,
                forall|j: int| 0 <= j < i - cu.len() ==> (#[trigger] ne[j]) is Some,
                cu == slots(old(cur)@),
                ne == slots(old(next)@),
                out0 == pair_models(old(out)@),
                old(cur)@.len() == cu.len(),
                old(next)@.len() == ne.len(),
                forall|c: State, n: State| #[trigger]
                    pair_models(out@).contains((c, n)) == (out0.contains((c, n)) || (solution(ts, cs, cu, ne, c, n)
                        && vs.take(k as int).contains(
                        if primed {
                            n[at as int]
                        } else {
                            c[at as int]
                        },
                    ))),
            decreases values.len() - k,
        {
            let ghost b0 = pair_models(out@);
            let ghost vm = vs[k as int];
            let v = values[k].clone();
            proof {
                assert(vm == values@[k as int].model());
                assert(vs.contains(vm));
                assert(of_type(ts[at as int], vm));
            }
            if primed {
                proof {
                    slots_set(next@, ne, at as int, Some(v));
                }
                next.set(at, Some(v));
            } else {
                proof {
                    slots_set(cur@, cu, at as int, Some(v));
                }
                cur.set(at, Some(v));
            }
            let ghost cu2 = slots(cur@);
            let ghost ne2 = slots(next@);
            let r = self.enumerate(active, cur, next, i + 1, out);
            proof {
                assert(slots(cur@).len() == cu2.len());
                assert(slots(next@).len() == ne2.len());
            }
            match r {
                Err(x) => {
                    if primed {
                        proof {
                            slots_set(next@, ne, at as int, None);
                            assert(ne.update(at as int, None) =~= ne);
                        }
                        next.set(at, None);
                    } else {
                        proof {
                            slots_set(cur@, cu, at as int, None);
                            assert(cu.update(at as int, None) =~= cu);
                        }
                        cur.set(at, None);
                    }
                    return Err(x);
                },
                Ok(()) => {},
            }
            proof {
                assert forall|c: State, n: State| #[trigger] pair_models(out@).contains((c, n))
                    == (out0.contains((c, n))
                    || (solution(ts, cs, cu, ne, c, n) && vs.take(k + 1).contains(
                    if primed {
                        n[at as int]
                    } else {
                        c[at as int]
                    },
                ))) by {
                    let z = if primed {
                        n[at as int]
                    } else {
                        c[at as int]
                    };
                    assert(pair_models(out@).contains((c, n)) == (b0.contains((c, n)) || solution(
                        ts,
                        cs,
                        cu2,
                        ne2,
                        c,
                        n,
                    )));
                    choose_slot(ts, cs, cu, ne, cu2, ne2, at as int, primed, vm, c, n);
                    take_next(vs, k as int, z);
                }
            }
            k += 1;
        }
        if primed {
            proof {
                slots_set(next@, ne, at as int, None);
                assert(ne.update(at as int, None) =~= ne);
            }
            next.set(at, None);
        } else {
            proof {
                slots_set(cur@, cu, at as int, None);
                assert(cu.update(at as int, None) =~= cu);
            }
            cur.set(at, None);
        }
        proof {
            assert(vs.take(k as int) =~= vs);
            assert forall|c: State, n: State| #[trigger] pair_models(out@).contains((c, n)) == (out0.contains((c, n))
                || solution(ts, cs, cu, ne, c, n)) by {
                if solution(ts, cs, cu, ne, c, n) {
                    if primed {
                        assert(of_type(ts[at as int], n[at as int]));
                    } else {
                        assert(of_type(ts[at as int], c[at as int]));
                    }
                }
            }
        }
        Ok(())
    }

    /// Tests the one candidate that is left.
    fn test_one(
        &self,
        active: &Vec<FExpr>,
        cur: &Vec<Option<Value>>,
        next: &Vec<Option<Value>>,
        out: &mut Vec<(Vec<Value>, Vec<Value>)>,
    ) -> (r: Result<(), EngineError>)
        requires
            typed_slots(self.sys().leaves, slots(cur@)),
            typed_slots(self.sys().leaves, slots(next@)),
            full(slots(cur@)),
            full(slots(next@)),
        ensures
            match r {
                Ok(()) => forall|c: State, n: State| #[trigger]
                    pair_models(final(out)@).contains((c, n)) == (pair_models(old(out)@).contains((c, n)) || solution(
                        self.sys().leaves,
                        fe_models(active@),
                        slots(cur@),
                        slots(next@),
                        c,
                        n,
                    )),
                Err(x) => x is Eval && !able(self.sys().leaves, fe_models(active@), cur@.len(), next@.len()),
            },
    {
        let ghost ts = self.sys().leaves;
        let ghost cs = fe_models(active@);
        let ghost cu = slots(cur@);
        let ghost ne = slots(next@);
        let ghost out0 = pair_models(out@);
        let c = settled_values(cur);
        let n = settled_values(next);
        let ghost cm = models(c@);
        let ghost nm = models(n@);
        proof {
            assert forall|p: State, q: State| agrees_with(p, cu) && agrees_with(q, ne) implies #[trigger] agrees_pair(
                p,
                q,
                cm,
                nm,
            ) by {
                assert forall|i: int| 0 <= i < p.len() implies p[i] == cm[i] by {
                    assert(p[i] == cu[i]->0);
                    assert(Some(cm[i]) == cu[i]);
                }
                assert forall|i: int| 0 <= i < q.len() implies q[i] == nm[i] by {
                    assert(q[i] == ne[i]->0);
                    assert(Some(nm[i]) == ne[i]);
                }
                assert(p =~= cm);
                assert(q =~= nm);
            }
            assert(agrees_with(cm, cu)) by {
                assert forall|i: int| 0 <= i < cm.len() && cu[i] is Some implies #[trigger] cm[i] == cu[i]->0 by {
                    assert(Some(cm[i]) == cu[i]);
                }
            }
            assert(agrees_with(nm, ne)) by {
                assert forall|i: int| 0 <= i < nm.len() && ne[i] is Some implies #[trigger] nm[i] == ne[i]->0 by {
                    assert(Some(nm[i]) == ne[i]);
                }
            }
            assert(typed_state(ts, cm)) by {
                assert forall|i: int| 0 <= i < cm.len() implies of_type(ts[i], #[trigger] cm[i]) by {
                    assert(Some(cm[i]) == cu[i]);
                }
            }
            assert(typed_state(ts, nm)) by {
                assert forall|i: int| 0 <= i < nm.len() implies of_type(ts[i], #[trigger] nm[i]) by {
                    assert(Some(nm[i]) == ne[i]);
                }
            }
            solution_fits(ts, cs, cu, ne, cm, nm);
        }
        let ghost x = step_leaves(cm, nm);
        let mut k: usize = 0;
        while k < active.len()
            invariant
                k <= active@.len(),
                cs == fe_models(active@),
                cu == slots(cur@),
                ne == slots(next@),
                ts == self.sys().leaves,
                out0 == pair_models(old(out)@),
                out@ == old(out)@,
                full(cu),
                full(ne),
                fits(cu, ne, x),
                x == step_leaves(cm, nm),
                forall|p: State, q: State|
                    agrees_with(p, cu) && agrees_with(q, ne) ==> #[trigger] agrees_pair(p, q, cm, nm),
                forall|j: int| 0 <= j < k ==> holds(sem(#[trigger] cs[j], x)),
                typed_slots(ts, cu),
                typed_slots(ts, ne),
            decreases active.len() - k,
        {
            proof {
                assert(cs[k as int] == active@[k as int].model());
                if able(ts, cs, cur@.len(), next@.len()) {
                    typed_prepared(ts, cu, ne);
                }
            }
            match peval(&active[k], cur, next) {
                Err(x) => {
                    return Err(x);
                },
                Ok(Some(Value::Bool(true))) => {},
                Ok(Some(Value::Bool(false))) => {
                    proof {
                        assert forall|p: State, q: State| #[trigger] pair_models(out@).contains((p, q)) == (
                        out0.contains((p, q)) || solution(ts, cs, cu, ne, p, q)) by {
                            if solution(ts, cs, cu, ne, p, q) {
                                assert(agrees_pair(p, q, cm, nm));
                                assert(holds(sem(cs[k as int], x)));
                            }
                        }
                    }
                    return Ok(());
                },
                Ok(Some(_)) => {
                    return Err(crate::arith::bad("boolean expected"));
                },
                Ok(None) => {
                    assert(settled(cs[k as int], cu, ne));
                    assert(false);
                },
            }
            k += 1;
        }
        let ghost o0 = out@;
        out.push((c, n));
        proof {
            assert(hold_all(cs, x));
            let ps = pair_models(out@);
            assert(ps =~= out0.push((cm, nm)));
            assert forall|p: State, q: State| #[trigger] ps.contains((p, q)) == (out0.contains((p, q)) || solution(
                ts,
                cs,
                cu,
                ne,
                p,
                q,
            )) by {
                if solution(ts, cs, cu, ne, p, q) {
                    assert(agrees_pair(p, q, cm, nm));
                    assert(ps[out0.len() as int] == (p, q));
                }
                if out0.contains((p, q)) {
                    let i = choose|i: int| 0 <= i < out0.len() && out0[i] == (p, q);
                    assert(ps[i] == (p, q));
                }
                if ps.contains((p, q)) {
                    let i = choose|i: int| 0 <= i < ps.len() && ps[i] == (p, q);
                    if i < out0.len() {
                        assert(out0[i] == (p, q));
                    }
                }
            }
        }
        Ok(())
    }

    /// The number of combinations of the unknown values, as far as a machine word goes.
    fn combinations(&self, v: &Vec<Option<Value>>, start: u64) -> (r: u64)
        requires
            finite(self.sys().leaves),
            v@.len() <= self.sys().leaves.len(),
        ensures
            r <= (if start == 0 {
                1
            } else {
                start as int
            }) * space(self.sys().leaves, v@.len() as int),
    {
        let ghost ts = self.sys().leaves;
        let ghost s: nat = if start == 0 {
            1
        } else {
            start as nat
        };
        assert(space(ts, 0) == 1);
        assert(s * 1 >= start);
        let mut p: u64 = start;
        let mut i: usize = 0;
        while i < v.len()
            invariant
                i <= v@.len(),
                v@.len() <= self.flat.leaves@.len(),
                ts == self.sys().leaves,
                ts.len() == self.flat.leaves@.len(),
                finite(ts),
                s >= 1,
                p <= s * space(ts, i as int),
            decreases v.len() - i,
        {
            let ghost card: nat = match leaf_card(ts[i as int]) {
                Some(c) => if c == 0 {
                    1
                } else {
                    c
                },
                None => 1,
            };
            let ghost sp = space(ts, i as int);
            let ghost p0 = p;
            proof {
                assert(ts[i as int] == self.flat.leaves@[i as int].ty@);
                assert(leaf_values(ts[i as int]) is Some);
                space_least(ts, i as int);
                assert(space(ts, i + 1) == sp * card);
                assert(s * (sp * card) == (s * sp) * card) by (nonlinear_arith);
                assert((s * sp) * card >= p0 * card && (s * sp) * card >= s * sp && (s * sp) * card >= card)
                    by (nonlinear_arith)
                    requires
                        s * sp >= p0,
                        s >= 1,
                        sp >= 1,
                        card >= 1,
                ;
                assert(p0 * card >= p0) by (nonlinear_arith)
                    requires
                        card >= 1,
                        p0 >= 0,
                ;
            }
            if v[i].is_none() {
                match self.flat.leaves[i].ty.cardinality() {
                    Some(n) => {
                        p = match p.checked_mul(n) {
                            Some(q) => q,
                            None => u64::MAX,
                        };
                    },
                    None => {
                        p = u64::MAX;
                    },
                }
            }
            i += 1;
        }
        p
    }

    /// All pairs of states that solve the conditions and have the values that are known.
    fn solve(
        &self,
        constraints: &Vec<FExpr>,
        cur0: Vec<Option<Value>>,
        next0: Vec<Option<Value>>,
    ) -> (r: Result<Vec<(Vec<Value>, Vec<Value>)>, EngineError>)
        requires
            finite(self.sys().leaves),
            typed_slots(self.sys().leaves, slots(cur0@)),
            typed_slots(self.sys().leaves, slots(next0@)),
        ensures
            match r {
                Ok(v) => lists(
                    pair_models(v@),
                    self.sys().leaves,
                    fe_models(constraints@),
                    slots(cur0@),
                    slots(next0@),
                ),
                Err(x) => (x is Eval && !able(
                    self.sys().leaves,
                    fe_models(constraints@),
                    cur0@.len(),
                    next0@.len(),
                )) || (x is TooLarge && too_wide(self.sys().leaves, self.max_enum)),
            },
    {
        let ghost ts = self.sys().leaves;
        let ghost cs = fe_models(constraints@);
        let ghost cu0 = slots(cur0@);
        let ghost ne0 = slots(next0@);
        let mut cur = cur0;
        let mut next = next0;
        let mut active: Vec<FExpr> = Vec::new();
        let mut i: usize = 0;
        while i < constraints.len()
            invariant
                i <= constraints@.len(),
                cs == fe_models(constraints@),
                forall|x: Leaves| #[trigger] hold_all(fe_models(active@), x) == hold_all(cs.take(i as int), x),
                forall|p: bool| #[trigger] all_clean(cs, ts, p) ==> all_clean(fe_models(active@), ts, p),
            decreases constraints.len() - i,
        {
            let ghost a0 = fe_models(active@);
            flatten_conj(&constraints[i], &mut active);
            proof {
                assert forall|p: bool| #[trigger] all_clean(cs, ts, p) implies all_clean(fe_models(active@), ts, p) by {
                    assert(clean(cs[i as int], ts, p) == Some(Kind::B));
                    assert(all_clean(a0, ts, p));
                }
                assert forall|x: Leaves| #[trigger] hold_all(fe_models(active@), x)
                    == hold_all(cs.take(i + 1), x) by {
                    assert(hold_all(a0, x) == hold_all(cs.take(i as int), x));
                    hold_push(cs.take(i as int), cs[i as int], x);
                    assert(cs.take(i as int).push(cs[i as int]) =~= cs.take(i + 1));
                }
            }
            i += 1;
        }
        proof {
            assert(cs.take(i as int) =~= cs);
            assert forall|c: State, n: State| solution(ts, cs, cu0, ne0, c, n) == #[trigger] solution(
                ts,
                fe_models(active@),
                cu0,
                ne0,
                c,
                n,
            ) by {
                let x = step_leaves(c, n);
                assert(hold_all(fe_models(active@), x) == hold_all(cs, x));
            }
        }
        let mut going = true;
        while going
            invariant
                ts == self.sys().leaves,
                typed_slots(ts, slots(cur@)),
                typed_slots(ts, slots(next@)),
                pruned(ts, cs, cu0, ne0, fe_models(active@), slots(cur@), slots(next@)),
                cur@.len() == cur0@.len(),
                next@.len() == next0@.len(),
                able(ts, cs, cur0@.len(), next0@.len()) ==> able(
                    ts,
                    fe_models(active@),
                    cur0@.len(),
                    next0@.len(),
                ),
                cs == fe_models(constraints@),
                cu0 == slots(cur0@),
                ne0 == slots(next0@),
            decreases active@.len() + if going {
                1nat
            } else {
                0nat
            },
        {
            let before: usize = active.len();
            let ghost a0 = fe_models(active@);
            let ghost c0 = slots(cur@);
            let ghost n0 = slots(next@);
            match self.propagate(active, &mut cur, &mut next) {
                Err(x) => {
                    return Err(x);
                },
                Ok(None) => {
                    let out: Vec<(Vec<Value>, Vec<Value>)> = Vec::new();
                    proof {
                        assert forall|c: State, n: State| pair_models(out@).contains((c, n)) == #[trigger] solution(
                            ts,
                            cs,
                            cu0,
                            ne0,
                            c,
                            n,
                        ) by {
                            assert(solution(ts, cs, cu0, ne0, c, n) == solution(ts, a0, c0, n0, c, n));
                        }
                    }
                    return Ok(out);
                },
                Ok(Some(left)) => {
                    active = left;
                    proof {
                        assert forall|c: State, n: State| solution(ts, cs, cu0, ne0, c, n) == #[trigger] solution(
                            ts,
                            fe_models(active@),
                            slots(cur@),
                            slots(next@),
                            c,
                            n,
                        ) by {
                            assert(solution(ts, cs, cu0, ne0, c, n) == solution(ts, a0, c0, n0, c, n));
                        }
                    }
                },
            }
            going = active.len() < before;
        }
        let p1: u64 = self.combinations(&cur, 1);
        let p2: u64 = self.combinations(&next, p1);
        proof {
            let n = ts.len() as int;
            let a = space(ts, cur@.len() as int);
            let b = space(ts, next@.len() as int);
            let w = space(ts, n);
            space_least(ts, cur@.len() as int);
            space_grows(ts, cur@.len() as int, n);
            space_grows(ts, next@.len() as int, n);
            let q: int = if p1 == 0 {
                1
            } else {
                p1 as int
            };
            assert(q * b <= w * w) by (nonlinear_arith)
                requires
                    0 <= q <= a,
                    a <= w,
                    0 <= b <= w,
            ;
        }
        if p2 > self.max_enum {
            let mut m = Int::from_u64(p2).text();
            put(&mut m, " combinations to enumerate");
            return Err(EngineError::TooLarge(m));
        }
        if cur.len() > usize::MAX - next.len() {
            return Err(EngineError::TooLarge(own("too many state variables")));
        }
        let mut out: Vec<(Vec<Value>, Vec<Value>)> = Vec::new();
        let ghost c1 = slots(cur@);
        let ghost n1 = slots(next@);
        match self.enumerate(&active, &mut cur, &mut next, 0, &mut out) {
            Err(x) => Err(x),
            Ok(()) => {
                proof {
                    assert forall|c: State, n: State| pair_models(out@).contains((c, n)) == #[trigger] solution(
                        ts,
                        cs,
                        cu0,
                        ne0,
                        c,
                        n,
                    ) by {
                        assert(solution(ts, cs, cu0, ne0, c, n) == solution(ts, fe_models(active@), c1, n1, c, n));
                    }
                }
                Ok(out)
            },
        }
    }
}

proof fn slots_set(v: Seq<Option<Value>>, base: Seq<Option<Val>>, at: int, x: Option<Value>)
    requires
        v.len() == base.len(),
        0 <= at < v.len(),
        forall|j: int| 0 <= j < base.len() && j != at ==> #[trigger] slots(v)[j] == base[j],
    ensures
        slots(v.update(at, x)) == base.update(at, slot(x)),
{
    let a = slots(v.update(at, x));
    let b = base.update(at, slot(x));
    assert forall|j: int| 0 <= j < a.len() implies #[trigger] a[j] == b[j] by {
        if j != at {
            assert(slots(v)[j] == base[j]);
        }
    }
    assert(a =~= b);
}

spec fn agrees_pair(p: State, q: State, c: State, n: State) -> bool {
    p == c && q == n
}

proof fn take_next(vs: Seq<Val>, k: int, z: Val)
    requires
        0 <= k < vs.len(),
    ensures
        vs.take(k + 1).contains(z) == (vs.take(k).contains(z) || z == vs[k]),
{
    let a = vs.take(k);
    let b = vs.take(k + 1);
    if b.contains(z) {
        let i = choose|i: int| 0 <= i < b.len() && b[i] == z;
        if i < k {
            assert(a[i] == z);
        }
    }
    if a.contains(z) {
        let i = choose|i: int| 0 <= i < a.len() && a[i] == z;
        assert(b[i] == z);
    }
    if z == vs[k] {
        assert(b[k] == z);
    }
}

proof fn choose_slot(
    ts: Seq<LT>,
    cs: Seq<FE>,
    cu: Seq<Option<Val>>,
    ne: Seq<Option<Val>>,
    cu2: Seq<Option<Val>>,
    ne2: Seq<Option<Val>>,
    at: int,
    primed: bool,
    v: Val,
    c: State,
    n: State,
)
    requires
        primed ==> 0 <= at < ne.len() && ne[at] is None && cu2 == cu && ne2 == ne.update(at, Some(v)),
        !primed ==> 0 <= at < cu.len() && cu[at] is None && ne2 == ne && cu2 == cu.update(at, Some(v)),
    ensures
        solution(ts, cs, cu2, ne2, c, n) == (solution(ts, cs, cu, ne, c, n) && (if primed {
            n[at]
        } else {
            c[at]
        }) == v),
{
    if agrees_with(c, cu2) && agrees_with(n, ne2) {
        assert forall|i: int| 0 <= i < c.len() && cu[i] is Some implies #[trigger] c[i] == cu[i]->0 by {
            assert(cu2[i] == cu[i]);
        }
        assert forall|i: int| 0 <= i < n.len() && ne[i] is Some implies #[trigger] n[i] == ne[i]->0 by {
            assert(ne2[i] == ne[i]);
        }
        if primed {
            assert(n[at] == ne2[at]->0);
        } else {
            assert(c[at] == cu2[at]->0);
        }
    }
    if agrees_with(c, cu) && agrees_with(n, ne) && (if primed {
        n[at]
    } else {
        c[at]
    }) == v {
        assert forall|i: int| 0 <= i < c.len() && cu2[i] is Some implies #[trigger] c[i] == cu2[i]->0 by {
            if primed || i != at {
                assert(cu2[i] == cu[i]);
            }
        }
        assert forall|i: int| 0 <= i < n.len() && ne2[i] is Some implies #[trigger] n[i] == ne2[i]->0 by {
            if !primed || i != at {
                assert(ne2[i] == ne[i]);
            }
        }
    }
}


/// A path: each state with what led to it, where that has a name.
pub struct Path {
    pub steps: Vec<(Vec<Value>, Option<String>)>,
}

impl Path {
    /// The states of the path.
    pub open spec fn states(&self) -> Seq<State> {
        Seq::new(self.steps@.len(), |i: int| models(self.steps@[i].0@))
    }

    /// Each state but the first comes with the labels of commands that lead to it from the one before.
    pub open spec fn labelled(&self, n: TN) -> bool {
        labels_lead(self.steps@, n)
    }
}

/// How a search ended.
pub enum CheckResult {
    /// The property holds in all reachable states.
    Proved,
    /// A run to a state in which it does not hold.
    Counterexample(Path),
    /// A run to a state that no step leaves.
    Deadlock(Path),
    /// There is no such state.
    Fine,
}

/// The contents of states.
pub open spec fn state_models(v: Seq<Vec<Value>>) -> Seq<State> {
    Seq::new(v.len(), |i: int| models(v[i]@))
}

/// Each state but the first comes with the labels of commands that lead to it from the one before.
pub open spec fn labels_lead(v: Seq<(Vec<Value>, Option<String>)>, n: TN) -> bool {
    forall|i: int|
        0 <= i < v.len() ==> match (#[trigger] v[i]).1 {
            None => i == 0,
            Some(l) => i > 0 && led_by(n, models(v[i - 1].0@), models(v[i].0@), l@),
        }
}

proof fn labels_push(v: Seq<(Vec<Value>, Option<String>)>, n: TN, s: Vec<Value>, l: String)
    requires
        labels_lead(v, n),
        v.len() > 0,
        led_by(n, models(v.last().0@), models(s@), l@),
    ensures
        labels_lead(v.push((s, Some(l))), n),
{
    let w = v.push((s, Some(l)));
    assert forall|i: int| 0 <= i < w.len() implies match (#[trigger] w[i]).1 {
        None => i == 0,
        Some(l) => i > 0 && led_by(n, models(w[i - 1].0@), models(w[i].0@), l@),
    } by {
        if i < v.len() {
            assert(w[i] == v[i]);
        }
    }
}

/// The step from one state to another can be taken by commands whose labels, one after another, are the text.
#[verifier::opaque]
pub open spec fn led_by(n: TN, s: State, t: State, label: Seq<char>) -> bool {
    exists|ls: Seq<Seq<char>>| #[trigger] takes(n, step_leaves(s, t), ls) && label == joined(ls, " || "@)
}

/// A way to make a step: conditions, and the labels of the commands.
pub struct Alternative {
    pub conditions: Vec<FExpr>,
    pub labels: Vec<String>,
}

/// One of the alternatives applies.
pub open spec fn some_alternative(v: Seq<Alternative>, x: Leaves) -> bool {
    exists|i: int| 0 <= i < v.len() && hold_all(fe_models((#[trigger] v[i]).conditions@), x)
}

fn clone_labels(v: &Vec<String>) -> (r: Vec<String>)
    ensures
        r@ == v@,
{
    crate::fexpr::clone_strings(v)
}

/// The labels are those of commands that take the step, wherever the conditions hold.
spec fn alts_named(v: Seq<Alternative>, n: TN) -> bool {
    forall|k: int, x: Leaves|
        0 <= k < v.len() && #[trigger] hold_all(fe_models(v[k].conditions@), x) ==> takes(n, x, views(v[k].labels@))
}

/// The alternative is the two others at once.
spec fn is_both(r: Alternative, a: Alternative, b: Alternative) -> bool {
    &&& fe_models(r.conditions@) == fe_models(a.conditions@) + fe_models(b.conditions@)
    &&& views(r.labels@) == views(a.labels@) + views(b.labels@)
}

/// The alternative is one of the first with one of the second.
spec fn from_both(r: Alternative, a: Seq<Alternative>, b: Seq<Alternative>) -> bool {
    exists|i: int, j: int| 0 <= i < a.len() && 0 <= j < b.len() && #[trigger] is_both(r, a[i], b[j])
}

/// Both alternatives at once.
fn both(a: &Alternative, b: &Alternative) -> (r: Alternative)
    ensures
        forall|x: Leaves| #[trigger]
            hold_all(fe_models(r.conditions@), x) == (hold_all(fe_models(a.conditions@), x) && hold_all(
                fe_models(b.conditions@),
                x,
            )),
        is_both(r, *a, *b),
{
    let mut conditions = clone_fexprs(&a.conditions);
    let mut more = clone_fexprs(&b.conditions);
    let ghost p = conditions@;
    let ghost q = more@;
    conditions.append(&mut more);
    let mut labels = clone_labels(&a.labels);
    let mut more = clone_labels(&b.labels);
    labels.append(&mut more);
    proof {
        assert(views(labels@) =~= views(a.labels@) + views(b.labels@));
        assert(conditions@ =~= p + q);
        assert(fe_models(conditions@) =~= fe_models(p) + fe_models(q));
        assert forall|x: Leaves| #[trigger] hold_all(fe_models(conditions@), x) == (hold_all(
            fe_models(a.conditions@),
            x,
        ) && hold_all(fe_models(b.conditions@), x)) by {
            hold_plus(fe_models(p), fe_models(q), x);
        }
    }
    Alternative { conditions, labels }
}

/// Each of the first alternatives with each of the second.
fn product_of(a: &Vec<Alternative>, b: &Vec<Alternative>) -> (r: Vec<Alternative>)
    ensures
        forall|x: Leaves| #[trigger]
            some_alternative(r@, x) == (some_alternative(a@, x) && some_alternative(b@, x)),
        forall|ts: Seq<LT>| #[trigger] alts_clean(a@, ts) && alts_clean(b@, ts) ==> alts_clean(r@, ts),
        forall|k: int| 0 <= k < r@.len() ==> from_both(#[trigger] r@[k], a@, b@),
{
    let mut out: Vec<Alternative> = Vec::new();
    let mut i: usize = 0;
    while i < a.len()
        invariant
            i <= a@.len(),
            forall|x: Leaves| #[trigger]
                some_alternative(out@, x) == (some_alternative(a@.take(i as int), x) && some_alternative(b@, x)),
            forall|ts: Seq<LT>| #[trigger] alts_clean(a@, ts) && alts_clean(b@, ts) ==> alts_clean(out@, ts),
            forall|k: int| 0 <= k < out@.len() ==> from_both(#[trigger] out@[k], a@, b@),
        decreases a.len() - i,
    {
        let ghost out0 = out@;
        let mut j: usize = 0;
        proof {
            assert forall|x: Leaves| #[trigger] some_alternative(out@, x) == (some_alternative(out0, x) || (hold_all(
                fe_models(a@[i as int].conditions@),
                x,
            ) && some_alternative(b@.take(0), x))) by {}
        }
        while j < b.len()
            invariant
                j <= b@.len(),
                i < a@.len(),
                forall|x: Leaves| #[trigger]
                    some_alternative(out@, x) == (some_alternative(out0, x) || (hold_all(
                        fe_models(a@[i as int].conditions@),
                        x,
                    ) && some_alternative(b@.take(j as int), x))),
                forall|ts: Seq<LT>| #[trigger] alts_clean(a@, ts) && alts_clean(b@, ts) ==> alts_clean(out@, ts),
                forall|k: int| 0 <= k < out@.len() ==> from_both(#[trigger] out@[k], a@, b@),
            decreases b.len() - j,
        {
            let ghost o1 = out@;
            let n = both(&a[i], &b[j]);
            out.push(n);
            proof {
                assert(from_both(n, a@, b@)) by {
                    assert(is_both(n, a@[i as int], b@[j as int]));
                }
                assert forall|ts: Seq<LT>| #[trigger] alts_clean(a@, ts) && alts_clean(b@, ts) implies alts_clean(
                    out@,
                    ts,
                ) by {
                    assert(alts_clean(o1, ts));
                    assert(all_clean(fe_models(a@[i as int].conditions@), ts, true));
                    assert(all_clean(fe_models(b@[j as int].conditions@), ts, true));
                    let nm = fe_models(n.conditions@);
                    let am = fe_models(a@[i as int].conditions@);
                    let bm = fe_models(b@[j as int].conditions@);
                    assert forall|k: int| 0 <= k < nm.len() implies clean(#[trigger] nm[k], ts, true) == Some(
                        Kind::B,
                    ) by {
                        if k < am.len() {
                            assert(nm[k] == am[k]);
                        } else {
                            assert(nm[k] == bm[k - am.len()]);
                        }
                    }
                }
                assert forall|x: Leaves| #[trigger] some_alternative(out@, x) == (some_alternative(out0, x)
                    || (hold_all(
                    fe_models(a@[i as int].conditions@),
                    x,
                ) && some_alternative(b@.take(j + 1), x))) by {
                    assert(some_alternative(o1, x) == (some_alternative(out0, x) || (hold_all(
                        fe_models(a@[i as int].conditions@),
                        x,
                    ) && some_alternative(b@.take(j as int), x))));
                    alternative_push(o1, n, x);
                    alternative_push(b@.take(j as int), b@[j as int], x);
                    assert(b@.take(j as int).push(b@[j as int]) =~= b@.take(j + 1));
                }
            }
            j += 1;
        }
        proof {
            assert(b@.take(j as int) =~= b@);
            assert forall|x: Leaves| #[trigger] some_alternative(out@, x) == (some_alternative(a@.take(i + 1), x)
                && some_alternative(b@, x)) by {
                assert(some_alternative(out0, x) == (some_alternative(a@.take(i as int), x)
                    && some_alternative(b@, x)));
                alternative_push(a@.take(i as int), a@[i as int], x);
                assert(a@.take(i as int).push(a@[i as int]) =~= a@.take(i + 1));
            }
        }
        i += 1;
    }
    assert(a@.take(i as int) =~= a@);
    out
}

proof fn alternative_push(v: Seq<Alternative>, a: Alternative, x: Leaves)
    ensures
        some_alternative(v.push(a), x) == (some_alternative(v, x) || hold_all(fe_models(a.conditions@), x)),
{
    let w = v.push(a);
    if some_alternative(w, x) {
        let i = choose|i: int| 0 <= i < w.len() && hold_all(fe_models((#[trigger] w[i]).conditions@), x);
        if i < v.len() {
            assert(v[i] == w[i]);
        }
    }
    if some_alternative(v, x) {
        let i = choose|i: int| 0 <= i < v.len() && hold_all(fe_models((#[trigger] v[i]).conditions@), x);
        assert(w[i] == v[i]);
    }
    if hold_all(fe_models(a.conditions@), x) {
        assert(w[v.len() as int] == a);
    }
}

fn command_alternative(c: &FlatCmd) -> (r: Alternative)
    ensures
        views(r.labels@) == label_list(c.model()),
        fe_models(r.conditions@) == seq![c.model().guard, c.model().constraint],
        forall|x: Leaves| #[trigger]
            hold_all(fe_models(r.conditions@), x) == (holds(sem(c.model().guard, x)) && holds(
                sem(c.model().constraint, x),
            )),
        forall|ts: Seq<LT>, primed: bool| #[trigger]
            all_clean(fe_models(r.conditions@), ts, primed) == (clean(c.model().guard, ts, primed) == Some(Kind::B)
                && clean(c.model().constraint, ts, primed) == Some(Kind::B)),
{
    let mut conditions: Vec<FExpr> = Vec::new();
    conditions.push(c.guard.clone());
    conditions.push(c.constraint.clone());
    let mut labels: Vec<String> = Vec::new();
    match &c.label {
        Some(s) => labels.push(s.clone()),
        None => {},
    }
    proof {
        assert(views(labels@) =~= label_list(c.model()));
        let ms = fe_models(conditions@);
        assert(ms =~= seq![c.model().guard, c.model().constraint]);
        assert forall|ts: Seq<LT>, primed: bool| #[trigger] all_clean(ms, ts, primed) == (clean(
            c.model().guard,
            ts,
            primed,
        ) == Some(Kind::B) && clean(c.model().constraint, ts, primed) == Some(Kind::B)) by {
            assert(ms[0] == c.model().guard);
            assert(ms[1] == c.model().constraint);
            if all_clean(ms, ts, primed) {
                assert(clean(ms[0], ts, primed) == Some(Kind::B) && clean(ms[1], ts, primed) == Some(Kind::B));
            }
        }
        assert forall|x: Leaves| #[trigger] hold_all(ms, x) == (holds(sem(c.model().guard, x)) && holds(
            sem(c.model().constraint, x),
        )) by {
            assert(ms[0] == c.model().guard);
            assert(ms[1] == c.model().constraint);
            if hold_all(ms, x) {
                assert(holds(sem(ms[0], x)) && holds(sem(ms[1], x)));
            }
        }
    }
    Alternative { conditions, labels }
}

/// All conditions of the relation can be evaluated for every pair of states.
pub open spec fn tn_clean(n: TN, ts: Seq<LT>) -> bool
    decreases n,
{
    match n {
        TN::True => true,
        TN::Cmds(cs) => cmds_clean(cs, ts, true),
        TN::All(ns) => every(tns_clean(ns, ts)),
        TN::Interleave(bs) => every(branches_clean(bs, ts)),
    }
}

/// Which of the relations can be evaluated.
pub open spec fn tns_clean(ns: Seq<TN>, ts: Seq<LT>) -> Seq<bool>
    decreases ns,
{
    Seq::new(
        ns.len(),
        |i: int|
            if 0 <= i < ns.len() {
                tn_clean(ns[i], ts)
            } else {
                arbitrary()
            },
    )
}

/// Which of the branches can be evaluated.
pub open spec fn branches_clean(bs: Seq<(TN, FE)>, ts: Seq<LT>) -> Seq<bool>
    decreases bs,
{
    Seq::new(
        bs.len(),
        |i: int|
            if 0 <= i < bs.len() {
                tn_clean(bs[i].0, ts) && clean(bs[i].1, ts, true) == Some(Kind::B)
            } else {
                arbitrary()
            },
    )
}

/// All conditions of the alternatives can be evaluated.
spec fn alts_clean(v: Seq<Alternative>, ts: Seq<LT>) -> bool {
    forall|k: int| 0 <= k < v.len() ==> all_clean(fe_models((#[trigger] v[k]).conditions@), ts, true)
}

/// The ways in which a relation allows a step.
fn trans_alternatives(node: &TransNode) -> (r: Vec<Alternative>)
    ensures
        forall|x: Leaves| #[trigger] some_alternative(r@, x) == allows(node.model(), x),
        forall|ts: Seq<LT>| #[trigger] tn_clean(node.model(), ts) ==> alts_clean(r@, ts),
        alts_named(r@, node.model()),
    decreases node,
{
    match node {
        TransNode::True => {
            let mut out: Vec<Alternative> = Vec::new();
            out.push(Alternative { conditions: Vec::new(), labels: Vec::new() });
            proof {
                assert forall|x: Leaves| #[trigger] some_alternative(out@, x) by {
                    assert(hold_all(fe_models(out@[0].conditions@), x));
                }
                assert(views(out@[0].labels@).len() == 0);
            }
            out
        },
        TransNode::Cmds(cs) => {
            let ghost ms = cmd_models(cs@);
            let mut out: Vec<Alternative> = Vec::new();
            let mut i: usize = 0;
            while i < cs.len()
                invariant
                    i <= cs@.len(),
                    ms == cmd_models(cs@),
                    forall|x: Leaves| #[trigger] some_alternative(out@, x) == some_cmd(ms.take(i as int), x),
                    node.model() == TN::Cmds(ms),
                    forall|ts: Seq<LT>| #[trigger] tn_clean(node.model(), ts) ==> alts_clean(out@, ts),
                    alts_named(out@, node.model()),
                decreases cs.len() - i,
            {
                let ghost o0 = out@;
                let a = command_alternative(&cs[i]);
                out.push(a);
                proof {
                    assert(alts_named(out@, node.model())) by {
                        assert forall|k: int, x: Leaves|
                            0 <= k < out@.len() && #[trigger] hold_all(fe_models(out@[k].conditions@), x) implies takes(
                            node.model(),
                            x,
                            views(out@[k].labels@),
                        ) by {
                            if k < o0.len() {
                                assert(hold_all(fe_models(o0[k].conditions@), x));
                            } else {
                                assert(ms[i as int] == cs@[i as int].model());
                                assert(fires(ms[i as int], x));
                                assert(views(out@[k].labels@) == label_list(ms[i as int]));
                                assert(is_part(i as int) && takes_cmd(ms, i as int, x, label_list(ms[i as int])));
                                assert(takes(TN::Cmds(ms), x, label_list(ms[i as int])));
                            }
                        }
                    }
                    assert forall|ts: Seq<LT>| #[trigger] tn_clean(node.model(), ts) implies alts_clean(out@, ts) by {
                        assert(ms[i as int] == cs@[i as int].model());
                        assert(all_clean(fe_models(a.conditions@), ts, true));
                        assert(alts_clean(o0, ts));
                    }
                    assert forall|x: Leaves| #[trigger] some_alternative(out@, x) == some_cmd(ms.take(i + 1), x) by {
                        assert(some_alternative(o0, x) == some_cmd(ms.take(i as int), x));
                        alternative_push(o0, a, x);
                        let y = ms.take(i as int);
                        let z = ms.take(i + 1);
                        assert(z[i as int] == cs@[i as int].model());
                        if some_cmd(y, x) {
                            let k = choose|k: int|
                                0 <= k < y.len() && holds(sem((#[trigger] y[k]).guard, x)) && holds(
                                    sem(y[k].constraint, x),
                                );
                            assert(z[k] == y[k]);
                        }
                        if some_cmd(z, x) {
                            let k = choose|k: int|
                                0 <= k < z.len() && holds(sem((#[trigger] z[k]).guard, x)) && holds(
                                    sem(z[k].constraint, x),
                                );
                            if k < i {
                                assert(y[k] == z[k]);
                            }
                        }
                    }
                }
                i += 1;
            }
            assert(ms.take(i as int) =~= ms);
            out
        },
        TransNode::All(ns) => {
            let ghost ms = tn_models(ns@);
            let mut out: Vec<Alternative> = Vec::new();
            out.push(Alternative { conditions: Vec::new(), labels: Vec::new() });
            proof {
                assert forall|x: Leaves| #[trigger] some_alternative(out@, x) == every(allowed(ms.take(0), x)) by {
                    assert(hold_all(fe_models(out@[0].conditions@), x));
                }
                assert(views(out@[0].labels@).len() == 0);
            }
            let mut i: usize = 0;
            while i < ns.len()
                invariant
                    i <= ns@.len(),
                    decreases_to!(node => ns),
                    ms == tn_models(ns@),
                    forall|x: Leaves| #[trigger]
                        some_alternative(out@, x) == every(allowed(ms.take(i as int), x)),
                    node.model() == TN::All(ms),
                    forall|ts: Seq<LT>| #[trigger] tn_clean(node.model(), ts) ==> alts_clean(out@, ts),
                    forall|k: int, x: Leaves|
                        0 <= k < out@.len() && #[trigger] hold_all(fe_models(out@[k].conditions@), x) ==> takes_all(
                            ms,
                            i as nat,
                            x,
                            views(out@[k].labels@),
                        ),
                decreases ns.len() - i,
            {
                let ghost o0 = out@;
                let sub = trans_alternatives(&ns[i]);
                out = product_of(&out, &sub);
                proof {
                    assert forall|k: int, x: Leaves|
                        0 <= k < out@.len() && #[trigger] hold_all(fe_models(out@[k].conditions@), x) implies takes_all(
                        ms,
                        (i + 1) as nat,
                        x,
                        views(out@[k].labels@),
                    ) by {
                        assert(from_both(out@[k], o0, sub@));
                        let (p, q) = choose|p: int, q: int|
                            0 <= p < o0.len() && 0 <= q < sub@.len() && #[trigger] is_both(out@[k], o0[p], sub@[q]);
                        hold_plus(fe_models(o0[p].conditions@), fe_models(sub@[q].conditions@), x);
                        let a = views(o0[p].labels@);
                        let b = views(sub@[q].labels@);
                        assert(hold_all(fe_models(o0[p].conditions@), x));
                        assert(hold_all(fe_models(sub@[q].conditions@), x));
                        assert(takes_all(ms, i as nat, x, a));
                        assert(takes(ns@[i as int].model(), x, b));
                        assert(ms[i as int] == ns@[i as int].model());
                        assert(splits(views(out@[k].labels@), a, b));
                    }
                    assert forall|ts: Seq<LT>| #[trigger] tn_clean(node.model(), ts) implies alts_clean(out@, ts) by {
                        assert(alts_clean(o0, ts));
                        assert(tns_clean(ms, ts)[i as int]);
                        assert(tn_clean(ns@[i as int].model(), ts));
                    }
                    assert forall|x: Leaves| #[trigger] some_alternative(out@, x) == every(
                        allowed(ms.take(i + 1), x),
                    ) by {
                        assert(some_alternative(o0, x) == every(allowed(ms.take(i as int), x)));
                        assert(some_alternative(sub@, x) == allows(ns@[i as int].model(), x));
                        let y = allowed(ms.take(i as int), x);
                        let z = allowed(ms.take(i + 1), x);
                        assert(z =~= y.push(allows(ms[i as int], x)));
                        if every(z) {
                            assert(z[i as int]);
                            assert forall|k: int| 0 <= k < y.len() implies #[trigger] y[k] by {
                                assert(z[k] == y[k]);
                            }
                        }
                    }
                }
                i += 1;
            }
            assert(ms.take(i as int) =~= ms);
            out
        },
        TransNode::Interleave(bs) => {
            let ghost ms = branch_models(bs@);
            let mut out: Vec<Alternative> = Vec::new();
            let mut i: usize = 0;
            while i < bs.len()
                invariant
                    i <= bs@.len(),
                    decreases_to!(node => bs),
                    ms == branch_models(bs@),
                    forall|x: Leaves| #[trigger]
                        some_alternative(out@, x) == some(branches_allowed(ms.take(i as int), x)),
                    node.model() == TN::Interleave(ms),
                    forall|ts: Seq<LT>| #[trigger] tn_clean(node.model(), ts) ==> alts_clean(out@, ts),
                    alts_named(out@, node.model()),
                decreases bs.len() - i,
            {
                let ghost o0 = out@;
                let sub = trans_alternatives(&bs[i].0);
                let mut frame: Vec<Alternative> = Vec::new();
                let mut conditions: Vec<FExpr> = Vec::new();
                conditions.push(bs[i].1.clone());
                frame.push(Alternative { conditions, labels: Vec::new() });
                let mut both = product_of(&sub, &frame);
                let ghost added = both@;
                out.append(&mut both);
                proof {
                    assert(out@ =~= o0 + added);
                    assert(alts_named(out@, node.model())) by {
                        assert forall|k: int, x: Leaves|
                            0 <= k < out@.len() && #[trigger] hold_all(fe_models(out@[k].conditions@), x) implies takes(
                            node.model(),
                            x,
                            views(out@[k].labels@),
                        ) by {
                            if k < o0.len() {
                                assert(hold_all(fe_models(o0[k].conditions@), x));
                            } else {
                                assert(out@[k] == added[k - o0.len()]);
                                assert(from_both(added[k - o0.len()], sub@, frame@));
                                let (p, q) = choose|p: int, q: int|
                                    0 <= p < sub@.len() && 0 <= q < frame@.len() && #[trigger] is_both(
                                        out@[k],
                                        sub@[p],
                                        frame@[q],
                                    );
                                hold_plus(fe_models(sub@[p].conditions@), fe_models(frame@[q].conditions@), x);
                                let fm = fe_models(frame@[0].conditions@);
                                assert(fm[0] == bs@[i as int].1.model());
                                assert(holds(sem(fm[0], x)));
                                assert(views(out@[k].labels@) =~= views(sub@[p].labels@));
                                assert(hold_all(fe_models(sub@[p].conditions@), x));
                                assert(takes(bs@[i as int].0.model(), x, views(sub@[p].labels@)));
                                assert(ms[i as int].0 == bs@[i as int].0.model());
                                assert(ms[i as int].1 == bs@[i as int].1.model());
                                assert(is_part(i as int));
                                assert(takes_branch(ms, i as int, x, views(out@[k].labels@)));
                                assert(takes(TN::Interleave(ms), x, views(out@[k].labels@)));
                            }
                        }
                    }
                    assert forall|ts: Seq<LT>| #[trigger] tn_clean(node.model(), ts) implies alts_clean(out@, ts) by {
                        assert(alts_clean(o0, ts));
                        assert(branches_clean(ms, ts)[i as int]);
                        assert(tn_clean(bs@[i as int].0.model(), ts));
                        assert(alts_clean(sub@, ts));
                        let fm = fe_models(frame@[0].conditions@);
                        assert(fm =~= seq![bs@[i as int].1.model()]);
                        assert(alts_clean(frame@, ts));
                        assert(alts_clean(added, ts));
                    }
                    assert forall|x: Leaves| #[trigger] some_alternative(out@, x) == some(
                        branches_allowed(ms.take(i + 1), x),
                    ) by {
                        assert(some_alternative(o0, x) == some(branches_allowed(ms.take(i as int), x)));
                        assert(some_alternative(sub@, x) == allows(bs@[i as int].0.model(), x));
                        let fm = fe_models(frame@[0].conditions@);
                        assert(fm[0] == bs@[i as int].1.model());
                        assert(some_alternative(frame@, x) == holds(sem(bs@[i as int].1.model(), x))) by {
                            if holds(sem(fm[0], x)) {
                                assert(hold_all(fm, x));
                            }
                            if some_alternative(frame@, x) {
                                assert(hold_all(fm, x));
                                assert(holds(sem(fm[0], x)));
                            }
                        }
                        assert(some_alternative(added, x) == (some_alternative(sub@, x)
                            && some_alternative(frame@, x)));
                        alternatives_plus(o0, added, x);
                        let y = branches_allowed(ms.take(i as int), x);
                        let z = branches_allowed(ms.take(i + 1), x);
                        assert(z =~= y.push(allows(ms[i as int].0, x) && holds(sem(ms[i as int].1, x))));
                        if some(y) {
                            let k = choose|k: int| 0 <= k < y.len() && #[trigger] y[k];
                            assert(z[k]);
                        }
                        if some_alternative(added, x) {
                            assert(z[i as int]);
                        }
                    }
                }
                i += 1;
            }
            assert(ms.take(i as int) =~= ms);
            out
        },
    }
}

proof fn alternatives_plus(a: Seq<Alternative>, b: Seq<Alternative>, x: Leaves)
    ensures
        some_alternative(a + b, x) == (some_alternative(a, x) || some_alternative(b, x)),
{
    let w = a + b;
    if some_alternative(w, x) {
        let i = choose|i: int| 0 <= i < w.len() && hold_all(fe_models((#[trigger] w[i]).conditions@), x);
        if i < a.len() {
            assert(a[i] == w[i]);
        } else {
            assert(b[i - a.len()] == w[i]);
        }
    }
    if some_alternative(a, x) {
        let i = choose|i: int| 0 <= i < a.len() && hold_all(fe_models((#[trigger] a[i]).conditions@), x);
        assert(w[i] == a[i]);
    }
    if some_alternative(b, x) {
        let i = choose|i: int| 0 <= i < b.len() && hold_all(fe_models((#[trigger] b[i]).conditions@), x);
        assert(w[a.len() + i] == b[i]);
    }
}

/// Whether a state is among others.
fn find_state(v: &Vec<Vec<Value>>, s: &Vec<Value>) -> (r: Option<usize>)
    ensures
        match r {
            Some(i) => i < v@.len() && models(v@[i as int]@) == models(s@) && state_models(v@).contains(models(s@)),
            None => !state_models(v@).contains(models(s@)),
        },
{
    let mut i: usize = 0;
    while i < v.len()
        invariant
            i <= v@.len(),
            forall|k: int| 0 <= k < i ==> models((#[trigger] v@[k])@) != models(s@),
        decreases v.len() - i,
    {
        if same_values(&v[i], s) {
            assert(state_models(v@)[i as int] == models(s@));
            return Some(i);
        }
        i += 1;
    }
    proof {
        if state_models(v@).contains(models(s@)) {
            let k = choose|k: int| 0 <= k < state_models(v@).len() && state_models(v@)[k] == models(s@);
            assert(models(v@[k]@) == models(s@));
        }
    }
    None
}

/// Slots of a known state.
fn known(s: &Vec<Value>) -> (r: Vec<Option<Value>>)
    ensures
        slots(r@).len() == s@.len(),
        forall|i: int| 0 <= i < s@.len() ==> #[trigger] slots(r@)[i] == Some(models(s@)[i]),
{
    let mut out: Vec<Option<Value>> = Vec::new();
    let mut i: usize = 0;
    while i < s.len()
        invariant
            i <= s@.len(),
            out@.len() == i,
            forall|k: int| 0 <= k < i ==> slot(#[trigger] out@[k]) == Some(s@[k].model()),
        decreases s.len() - i,
    {
        out.push(Some(s[i].clone()));
        i += 1;
    }
    proof {
        assert forall|k: int| 0 <= k < s@.len() implies #[trigger] slots(out@)[k] == Some(models(s@)[k]) by {
            assert(slot(out@[k]) == Some(s@[k].model()));
        }
    }
    out
}

fn unknown(n: usize) -> (r: Vec<Option<Value>>)
    ensures
        slots(r@).len() == n,
        forall|i: int| 0 <= i < n ==> (#[trigger] slots(r@)[i]) is None,
{
    let mut out: Vec<Option<Value>> = Vec::new();
    let mut i: usize = 0;
    while i < n
        invariant
            i <= n,
            out@.len() == i,
            forall|k: int| 0 <= k < i ==> (#[trigger] out@[k]) is None,
        decreases n - i,
    {
        out.push(None);
        i += 1;
    }
    out
}

/// The conditions of the commands can be evaluated.
pub open spec fn cmds_clean(cs: Seq<Cmd>, ts: Seq<LT>, primed: bool) -> bool {
    forall|k: int|
        0 <= k < cs.len() ==> clean((#[trigger] cs[k]).guard, ts, primed) == Some(Kind::B) && clean(
            cs[k].constraint,
            ts,
            primed,
        ) == Some(Kind::B)
}

/// The conditions of the choices for the first state can be evaluated.
pub open spec fn blocks_clean(sys: Sys) -> bool {
    forall|i: int| 0 <= i < sys.init_choices.len() ==> cmds_clean(#[trigger] sys.init_choices[i], sys.leaves, false)
}

/// The conditions on the first state can be evaluated in every state.
pub open spec fn init_clean(sys: Sys) -> bool {
    &&& all_clean(sys.invariants, sys.leaves, false)
    &&& all_clean(sys.init_defs, sys.leaves, false)
    &&& blocks_clean(sys)
}

/// The conditions on steps can be evaluated for every pair of states.
pub open spec fn step_clean(sys: Sys) -> bool {
    &&& all_clean(primeds(sys.invariants), sys.leaves, true)
    &&& all_clean(sys.trans_defs, sys.leaves, true)
    &&& tn_clean(sys.trans, sys.leaves)
}

impl<'m> Explicit<'m> {
    /// The system is one that the engine takes.
    pub open spec fn wf(&self) -> bool {
        finite(self.sys().leaves) && self.sys().plain()
    }

    /// Adds the states that solve the conditions, one command of each block from `b` on included.
    fn initial_from(
        &self,
        base: &Vec<FExpr>,
        b: usize,
        out: &mut Vec<Vec<Value>>
    ) -> (r: Result<(), EngineError>)
        requires
            self.wf(),
            b <= self.sys().init_choices.len(),
            all_true(unprimeds(fe_models(base@))),
        ensures
            match r {
                Ok(()) => forall|s: State| #[trigger]
                    state_models(final(out)@).contains(s) == (state_models(old(out)@).contains(s)
                        || (self.sys().is_state(
                        s,
                    ) && hold_all(fe_models(base@), state_leaves(s)) && choices_from(
                        self.sys().init_choices,
                        b as int,
                        state_leaves(s),
                    ))),
                Err(x) => (x is Eval && !(all_clean(fe_models(base@), self.sys().leaves, false) && blocks_clean(
                    self.sys(),
                ))) || (x is TooLarge && too_wide(self.sys().leaves, self.max_enum)),
            },
        decreases self.sys().init_choices.len() - b,
    {
        let ghost sys = self.sys();
        let ghost ts = sys.leaves;
        let ghost bs = fe_models(base@);
        let ghost out0 = state_models(out@);
        if b == self.flat.init_choices.len() {
            let none: Vec<Option<Value>> = Vec::new();
            let all = unknown(self.flat.leaves.len());
            let ghost cu = slots(all@);
            let ghost ne = slots(none@);
            let sols = match self.solve(base, all, none) {
                Ok(v) => v,
                Err(x) => {
                    return Err(x);
                },
            };
            let mut i: usize = 0;
            while i < sols.len()
                invariant
                    i <= sols@.len(),
                    out0 == state_models(old(out)@),
                    forall|s: State| #[trigger]
                        state_models(out@).contains(s) == (out0.contains(s) || exists|k: int|
                            0 <= k < i && models((#[trigger] sols@[k]).0@) == s),
                decreases sols.len() - i,
            {
                let ghost o1 = out@;
                let s = clone_values(&sols[i].0);
                if find_state(out, &s).is_none() {
                    out.push(s);
                }
                proof {
                    assert forall|t: State| #[trigger] state_models(out@).contains(t) == (out0.contains(t) || exists|
                        k: int,
                    |
                        0 <= k < i + 1 && models((#[trigger] sols@[k]).0@) == t) by {
                        assert(state_models(o1).contains(t) == (out0.contains(t) || exists|k: int|
                            0 <= k < i && models((#[trigger] sols@[k]).0@) == t));
                        added_state(o1, out@, s, t);
                        if exists|k: int| 0 <= k < i + 1 && models((#[trigger] sols@[k]).0@) == t {
                            let k = choose|k: int| 0 <= k < i + 1 && models((#[trigger] sols@[k]).0@) == t;
                            if k < i {
                                assert(models(sols@[k].0@) == t);
                            }
                        }
                        if models(s@) == t {
                            assert(models(sols@[i as int].0@) == t);
                        }
                    }
                }
                i += 1;
            }
            proof {
                assert forall|s: State| #[trigger] state_models(out@).contains(s) == (out0.contains(s)
                    || (sys.is_state(s)
                    && hold_all(bs, state_leaves(s))
                        && choices_from(sys.init_choices, b as int, state_leaves(s)))) by {
                    let e = Seq::<Val>::empty();
                    let ps = pair_models(sols@);
                    state_solution(sys, bs, cu, ne, s);
                    if exists|k: int| 0 <= k < sols@.len() && models((#[trigger] sols@[k]).0@) == s {
                        let k = choose|k: int| 0 <= k < sols@.len() && models((#[trigger] sols@[k]).0@) == s;
                        let q = models(sols@[k].1@);
                        assert(ps[k] == (s, q));
                        assert(ps.contains((s, q)));
                        assert(solution(ts, bs, cu, ne, s, q));
                        assert(q =~= e);
                    }
                    if solution(ts, bs, cu, ne, s, e) {
                        assert(ps.contains((s, e)));
                        let k = choose|k: int| 0 <= k < ps.len() && ps[k] == (s, e);
                        assert(models(sols@[k].0@) == s);
                    }
                }
            }
            return Ok(());
        }
        let block = &self.flat.init_choices[b];
        let ghost ms = cmd_models(block@);
        proof {
            assert(sys.init_choices[b as int] == ms);
        }
        let mut i: usize = 0;
        while i < block.len()
            invariant
                i <= block@.len(),
                self.wf(),
                sys == self.sys(),
                b < sys.init_choices.len(),
                b < self.flat.init_choices.len(),
                bs == fe_models(base@),
                all_true(unprimeds(bs)),
                block@ == self.flat.init_choices@[b as int]@,
                all_clean(bs, sys.leaves, false) && blocks_clean(sys) ==> cmds_clean(ms, sys.leaves, false),
                ms == cmd_models(block@),
                sys.init_choices[b as int] == ms,
                out0 == state_models(old(out)@),
                forall|s: State| #[trigger]
                    state_models(out@).contains(s) == (out0.contains(s) || (sys.is_state(s) && hold_all(
                        bs,
                        state_leaves(s),
                    ) && some_cmd(ms.take(i as int), state_leaves(s)) && choices_from(
                        sys.init_choices,
                        b + 1,
                        state_leaves(s),
                    ))),
            decreases block.len() - i,
        {
            let ghost o1 = state_models(out@);
            let mut more = clone_fexprs(base);
            let ghost m0 = more@;
            let mut a = command_alternative(&block[i]);
            let ghost am = fe_models(a.conditions@);
            let mut conditions = a.conditions;
            let ghost av = conditions@;
            more.append(&mut conditions);
            proof {
                assert(more@ =~= m0 + av);
                assert(fe_models(more@) =~= bs + am);
                if all_clean(bs, sys.leaves, false) && blocks_clean(sys) {
                    let mm = fe_models(more@);
                    assert(ms[i as int] == block@[i as int].model());
                    assert(all_clean(am, sys.leaves, false));
                    assert forall|k: int| 0 <= k < mm.len() implies clean(#[trigger] mm[k], sys.leaves, false) == Some(
                        Kind::B,
                    ) by {
                        if k < bs.len() {
                            assert(mm[k] == bs[k]);
                        } else {
                            assert(mm[k] == am[k - bs.len()]);
                        }
                    }
                }
                assert(all_true(unprimeds(fe_models(more@)))) by {
                    command_unprimed(&block@[i as int], sys, b as int, i as int, am);
                    let u = unprimeds(fe_models(more@));
                    assert forall|k: int| 0 <= k < u.len() implies #[trigger] u[k] by {
                        if k < bs.len() {
                            assert(unprimeds(bs)[k]);
                        } else {
                            assert(unprimed(am[k - bs.len()]));
                        }
                    }
                }
            }
            match self.initial_from(&more, b + 1, out) {
                Err(x) => {
                    return Err(x);
                },
                Ok(()) => {},
            }
            proof {
                assert forall|s: State| #[trigger] state_models(out@).contains(s) == (out0.contains(s)
                    || (sys.is_state(s)
                    && hold_all(bs, state_leaves(s)) && some_cmd(
                        ms.take(i + 1),
                        state_leaves(s)
                    ) && choices_from(
                    sys.init_choices,
                    b + 1,
                    state_leaves(s),
                ))) by {
                    let x = state_leaves(s);
                    assert(o1.contains(s) == (out0.contains(s) || (sys.is_state(s) && hold_all(bs, x) && some_cmd(
                        ms.take(i as int),
                        x,
                    ) && choices_from(sys.init_choices, b + 1, x))));
                    hold_plus(bs, am, x);
                    assert(hold_all(am, x) == (holds(sem(ms[i as int].guard, x)) && holds(
                        sem(ms[i as int].constraint, x),
                    )));
                    some_cmd_next(ms, i as int, x);
                }
            }
            i += 1;
        }
        proof {
            assert(ms.take(i as int) =~= ms);
            assert forall|s: State| #[trigger] state_models(out@).contains(s) == (out0.contains(s) || (sys.is_state(s)
                && hold_all(bs, state_leaves(s)) && choices_from(sys.init_choices, b as int, state_leaves(s)))) by {
                choices_next(sys.init_choices, b as int, state_leaves(s));
            }
        }
        Ok(())
    }

    /// All initial states.
    pub fn initial_states(&self) -> (r: Result<Vec<Vec<Value>>, EngineError>)
        requires
            self.wf(),
        ensures
            match r {
                Ok(v) => forall|s: State| #[trigger] state_models(v@).contains(s) == self.sys().initial(s),
                Err(x) => (x is Eval && !init_clean(self.sys())) || (x is TooLarge && too_wide(
                    self.sys().leaves,
                    self.max_enum,
                )),
            },
    {
        let ghost sys = self.sys();
        let mut base = clone_fexprs(&self.flat.invariants);
        let mut more = clone_fexprs(&self.flat.init_defs);
        let ghost p = base@;
        let ghost q = more@;
        base.append(&mut more);
        proof {
            assert(base@ =~= p + q);
            assert(fe_models(base@) =~= sys.invariants + sys.init_defs);
            if init_clean(sys) {
                let bm = fe_models(base@);
                assert forall|k: int| 0 <= k < bm.len() implies clean(#[trigger] bm[k], sys.leaves, false) == Some(
                    Kind::B,
                ) by {
                    if k < sys.invariants.len() {
                        assert(bm[k] == sys.invariants[k]);
                    } else {
                        assert(bm[k] == sys.init_defs[k - sys.invariants.len()]);
                    }
                }
            }
            let u = unprimeds(fe_models(base@));
            assert forall|k: int| 0 <= k < u.len() implies #[trigger] u[k] by {
                if k < sys.invariants.len() {
                    assert(unprimeds(sys.invariants)[k]);
                } else {
                    assert(unprimeds(sys.init_defs)[k - sys.invariants.len()]);
                }
            }
        }
        let mut out: Vec<Vec<Value>> = Vec::new();
        match self.initial_from(&base, 0, &mut out) {
            Err(x) => Err(x),
            Ok(()) => {
                proof {
                    assert forall|s: State| #[trigger] state_models(out@).contains(s) == sys.initial(s) by {
                        let x = state_leaves(s);
                        hold_plus(sys.invariants, sys.init_defs, x);
                        hold_sems(sys.invariants, x);
                        hold_sems(sys.init_defs, x);
                        if choices_from(sys.init_choices, 0, x) {
                            assert forall|i: int| 0 <= i < sys.init_choices.len() implies some_cmd(
                                #[trigger] sys.init_choices[i],
                                x,
                            ) by {}
                        }
                    }
                }
                Ok(out)
            },
        }
    }

    /// The states that a step leads to, each with the labels of commands that lead to it.
    pub fn successors(&self, s: &Vec<Value>) -> (r: Result<Vec<(Vec<Value>, String)>, EngineError>)
        requires
            self.wf(),
            self.sys().is_state(models(s@)),
            self.sys().invariant_at(state_leaves(models(s@))),
        ensures
            match r {
                Ok(v) => {
                    &&& forall|t: State| #[trigger] listed(v@, t) == self.sys().step(models(s@), t)
                    &&& forall|k: int|
                        0 <= k < v@.len() ==> led_by(
                            self.sys().trans,
                            models(s@),
                            models((#[trigger] v@[k]).0@),
                            v@[k].1@,
                        )
                },
                Err(x) => (x is Eval && !step_clean(self.sys())) || (x is TooLarge && too_wide(
                    self.sys().leaves,
                    self.max_enum,
                )),
            },
    {
        let ghost sys = self.sys();
        let ghost ts = sys.leaves;
        let ghost sm = models(s@);
        let alts = trans_alternatives(&self.flat.trans);
        let mut out: Vec<(Vec<Value>, String)> = Vec::new();
        let mut i: usize = 0;
        while i < alts.len()
            invariant
                i <= alts@.len(),
                self.wf(),
                sys == self.sys(),
                ts == sys.leaves,
                sm == models(s@),
                sys.is_state(sm),
                sys.invariant_at(state_leaves(sm)),
                forall|x: Leaves| #[trigger] some_alternative(alts@, x) == allows(sys.trans, x),
                tn_clean(sys.trans, ts) ==> alts_clean(alts@, ts),
                alts_named(alts@, sys.trans),
                forall|k: int| 0 <= k < out@.len() ==> led_by(sys.trans, sm, models((#[trigger] out@[k]).0@), out@[k].1@),
                forall|t: State| #[trigger] listed(out@, t) == step_by(sys, alts@, i as int, sm, t),
            decreases alts.len() - i,
        {
            let mut cs = clone_fexprs(&alts[i].conditions);
            let mut defs = clone_fexprs(&self.flat.trans_defs);
            let mut invs = prime_all(&self.flat.invariants);
            let ghost c0 = fe_models(alts@[i as int].conditions@);
            let ghost cv = cs@;
            let ghost dv = defs@;
            let ghost iv = invs@;
            cs.append(&mut defs);
            cs.append(&mut invs);
            let ghost all = fe_models(cs@);
            proof {
                assert(cs@ =~= cv + dv + iv);
                assert(all =~= c0 + sys.trans_defs + primeds(sys.invariants));
                if step_clean(sys) {
                    assert(all_clean(c0, ts, true));
                    let k1 = c0.len() as int;
                    let k2 = k1 + sys.trans_defs.len();
                    assert forall|k: int| 0 <= k < all.len() implies clean(#[trigger] all[k], ts, true) == Some(
                        Kind::B,
                    ) by {
                        if k < k1 {
                            assert(all[k] == c0[k]);
                        } else if k < k2 {
                            assert(all[k] == sys.trans_defs[k - k1]);
                        } else {
                            assert(all[k] == primeds(sys.invariants)[k - k2]);
                        }
                    }
                }
            }
            let cur = known(s);
            let next = unknown(self.flat.leaves.len());
            let ghost cu = slots(cur@);
            let ghost ne = slots(next@);
            proof {
                assert forall|k: int| 0 <= k < cu.len()
                    && (#[trigger] cu[k]) is Some implies of_type(ts[k], cu[k]->0) by {
                    assert(cu[k] == Some(sm[k]));
                    assert(leaf_values(ts[k])->0.contains(sm[k]));
                }
            }
            let sols = match self.solve(&cs, cur, next) {
                Ok(v) => v,
                Err(x) => {
                    return Err(x);
                },
            };
            let label = join(&alts[i].labels, " || ");
            let ghost o0 = out@;
            let mut j: usize = 0;
            while j < sols.len()
                invariant
                    j <= sols@.len(),
                    label@ == joined(views(alts@[i as int].labels@), " || "@),
                    o0.len() <= out@.len(),
                    forall|k: int| 0 <= k < o0.len() ==> #[trigger] out@[k] == o0[k],
                    forall|k: int|
                        o0.len() <= k < out@.len() ==> (#[trigger] out@[k]).1@ == label@ && exists|z: int|
                            0 <= z < j && models((#[trigger] sols@[z]).1@) == models(out@[k].0@),
                    forall|t: State|
                        #![trigger listed(out@, t)]
                        listed(out@, t) == (listed(o0, t) || exists|k: int|
                            0 <= k < j && models((#[trigger] sols@[k]).1@) == t),
                decreases sols.len() - j,
            {
                let ghost o1 = out@;
                let t = clone_values(&sols[j].1);
                let fresh = !has_state(&out, &t);
                if fresh {
                    out.push((t, label.clone()));
                }
                proof {
                    assert forall|k: int| o0.len() <= k < out@.len() implies (#[trigger] out@[k]).1@ == label@ && exists|
                        z: int,
                    |
                        0 <= z < j + 1 && models((#[trigger] sols@[z]).1@) == models(out@[k].0@) by {
                        if k < o1.len() {
                            assert(out@[k] == o1[k]);
                            let z = choose|z: int| 0 <= z < j && models((#[trigger] sols@[z]).1@) == models(o1[k].0@);
                            assert(models(sols@[z].1@) == models(out@[k].0@));
                        } else {
                            assert(models(sols@[j as int].1@) == models(out@[k].0@));
                        }
                    }
                    assert forall|u: State|
                        #![trigger listed(out@, u)]
                        listed(out@, u) == (listed(o0, u) || exists|k: int|
                            0 <= k < j + 1 && models((#[trigger] sols@[k]).1@) == u) by {
                        assert(listed(o1, u) == (listed(o0, u) || exists|k: int|
                            0 <= k < j && models((#[trigger] sols@[k]).1@) == u));
                        if fresh {
                            assert(out@.take(o1.len() as int) =~= o1);
                        }
                        listed_push(o1, out@, t, u, fresh);
                        if exists|k: int| 0 <= k < j + 1 && models((#[trigger] sols@[k]).1@) == u {
                            let k = choose|k: int| 0 <= k < j + 1 && models((#[trigger] sols@[k]).1@) == u;
                            if k < j {
                                assert(models(sols@[k].1@) == u);
                            }
                        }
                        if models(t@) == u {
                            assert(models(sols@[j as int].1@) == u);
                        }
                    }
                }
                j += 1;
            }
            proof {
                assert forall|k: int| 0 <= k < out@.len() implies led_by(
                    sys.trans,
                    sm,
                    models((#[trigger] out@[k]).0@),
                    out@[k].1@,
                ) by {
                    if k < o0.len() {
                        assert(out@[k] == o0[k]);
                    } else {
                        let t = models(out@[k].0@);
                        let z = choose|z: int| 0 <= z < sols@.len() && models((#[trigger] sols@[z]).1@) == t;
                        let q = models(sols@[z].0@);
                        let ps = pair_models(sols@);
                        assert(ps[z] == (q, t));
                        assert(ps.contains((q, t)));
                        assert(solution(ts, all, cu, ne, q, t));
                        assert(q =~= sm) by {
                            assert forall|y: int| 0 <= y < q.len() implies q[y] == sm[y] by {
                                assert(cu[y] == Some(sm[y]));
                                assert(q[y] == cu[y]->0);
                            }
                        }
                        step_solution(sys, alts@[i as int], all, cu, ne, sm, t);
                        assert(hold_all(fe_models(alts@[i as int].conditions@), step_leaves(sm, t)));
                        assert(takes(sys.trans, step_leaves(sm, t), views(alts@[i as int].labels@)));
                        reveal(led_by);
                    }
                }
                assert forall|t: State| #[trigger] listed(out@, t) == step_by(sys, alts@, i + 1, sm, t) by {
                    assert(listed(out@, t) == (listed(o0, t) || exists|k: int|
                        0 <= k < sols@.len() && models((#[trigger] sols@[k]).1@) == t));
                    assert(listed(o0, t) == step_by(sys, alts@, i as int, sm, t));
                    step_solution(sys, alts@[i as int], all, cu, ne, sm, t);
                    let ps = pair_models(sols@);
                    if exists|k: int| 0 <= k < sols@.len() && models((#[trigger] sols@[k]).1@) == t {
                        let k = choose|k: int| 0 <= k < sols@.len() && models((#[trigger] sols@[k]).1@) == t;
                        let q = models(sols@[k].0@);
                        assert(ps[k] == (q, t));
                        assert(ps.contains((q, t)));
                        assert(solution(ts, all, cu, ne, q, t));
                        assert(q =~= sm) by {
                            assert forall|z: int| 0 <= z < q.len() implies q[z] == sm[z] by {
                                assert(cu[z] == Some(sm[z]));
                                assert(q[z] == cu[z]->0);
                            }
                        }
                    }
                    if solution(ts, all, cu, ne, sm, t) {
                        assert(ps.contains((sm, t)));
                        let k = choose|k: int| 0 <= k < ps.len() && ps[k] == (sm, t);
                        assert(models(sols@[k].1@) == t);
                    }
                    step_by_next(sys, alts@, i as int, sm, t);
                }
            }
            i += 1;
        }
        proof {
            assert forall|t: State| #[trigger] listed(out@, t) == sys.step(sm, t) by {
                assert(alts@.take(alts@.len() as int) =~= alts@);
                assert(listed(out@, t) == step_by(sys, alts@, alts@.len() as int, sm, t));
                let x = step_leaves(sm, t);
                assert(some_alternative(alts@, x) == allows(sys.trans, x));
            }
        }
        Ok(out)
    }

    /// Whether the property holds in a state.
    pub fn holds(&self, prop: &FExpr, s: &Vec<Value>) -> (r: Result<bool, EngineError>)
        ensures
            match r {
                Ok(b) => unprimed(prop.model()) ==> b == holds_in(prop.model(), models(s@)),
                Err(x) => x is Eval && !(self.sys().is_state(models(s@)) && clean(
                    prop.model(),
                    self.sys().leaves,
                    false,
                ) == Some(Kind::B)),
            },
    {
        let cur = known(s);
        let next: Vec<Option<Value>> = Vec::new();
        proof {
            let ts = self.sys().leaves;
            let cu = slots(cur@);
            let ne = slots(next@);
            let sm = models(s@);
            if self.sys().is_state(sm) && clean(prop.model(), ts, false) == Some(Kind::B) {
                assert forall|k: int| 0 <= k < cu.len() && (#[trigger] cu[k]) is Some implies of_type(ts[k], cu[k]->0) by {
                    assert(cu[k] == Some(sm[k]));
                    assert(leaf_values(ts[k])->0.contains(sm[k]));
                }
                typed_prepared(ts, cu, ne);
                assert(prepared(ts, cu, ne, false));
                assert(full(cu)) by {
                    assert forall|k: int| 0 <= k < cu.len() implies (#[trigger] cu[k]) is Some by {
                        assert(cu[k] == Some(sm[k]));
                    }
                }
                clean_unprimed(prop.model(), ts);
                assert(settled(prop.model(), cu, ne));
            }
        }
        match peval(prop, &cur, &next) {
            Err(x) => Err(x),
            Ok(Some(Value::Bool(b))) => {
                proof {
                    let x = state_leaves(models(s@));
                    let cu = slots(cur@);
                    assert(fits(cu, slots(next@), x)) by {
                        assert forall|l: LeafId| (l as int) < cu.len() && cu[l as int] is Some implies #[trigger] x(
                            l,
                            false,
                        ) == cu[l as int] by {
                            assert(cu[l as int] == Some(models(s@)[l as int]));
                        }
                    }
                }
                Ok(b)
            },
            Ok(_) => Err(crate::arith::bad("property must be a boolean state predicate")),
        }
    }
}

/// The state is in the list.
pub open spec fn listed(v: Seq<(Vec<Value>, String)>, t: State) -> bool {
    exists|k: int| 0 <= k < v.len() && models((#[trigger] v[k]).0@) == t
}

fn has_state(v: &Vec<(Vec<Value>, String)>, s: &Vec<Value>) -> (r: bool)
    ensures
        r == listed(v@, models(s@)),
{
    let mut i: usize = 0;
    while i < v.len()
        invariant
            i <= v@.len(),
            forall|k: int| 0 <= k < i ==> models((#[trigger] v@[k]).0@) != models(s@),
        decreases v.len() - i,
    {
        if same_values(&v[i].0, s) {
            return true;
        }
        i += 1;
    }
    false
}

proof fn listed_push(
    a: Seq<(Vec<Value>, String)>,
    b: Seq<(Vec<Value>, String)>,
    t: Vec<Value>,
    u: State,
    fresh: bool,
)
    requires
        fresh ==> b.len() == a.len() + 1 && b.take(a.len() as int) == a && b[a.len() as int].0 == t,
        !fresh ==> b == a && listed(a, models(t@)),
    ensures
        listed(b, u) == (listed(a, u) || models(t@) == u),
{
    if fresh {
        assert forall|k: int| 0 <= k < a.len() implies #[trigger] b[k] == a[k] by {
            assert(b.take(a.len() as int)[k] == b[k]);
        }
        if listed(b, u) {
            let k = choose|k: int| 0 <= k < b.len() && models((#[trigger] b[k]).0@) == u;
            if k < a.len() {
                assert(models(a[k].0@) == u);
            }
        }
        if listed(a, u) {
            let k = choose|k: int| 0 <= k < a.len() && models((#[trigger] a[k]).0@) == u;
            assert(models(b[k].0@) == u);
        }
        if models(t@) == u {
            assert(models(b[a.len() as int].0@) == u);
        }
    }
}

proof fn added_state(a: Seq<Vec<Value>>, b: Seq<Vec<Value>>, s: Vec<Value>, t: State)
    requires
        b == a.push(s) || (b == a && state_models(a).contains(models(s@))),
    ensures
        state_models(b).contains(t) == (state_models(a).contains(t) || models(s@) == t),
{
    let x = state_models(a);
    let y = state_models(b);
    if b == a.push(s) {
        assert(y =~= x.push(models(s@)));
        if y.contains(t) {
            let k = choose|k: int| 0 <= k < y.len() && y[k] == t;
            if k < x.len() {
                assert(x[k] == t);
            }
        }
        if x.contains(t) {
            let k = choose|k: int| 0 <= k < x.len() && x[k] == t;
            assert(y[k] == t);
        }
        if models(s@) == t {
            assert(y[x.len() as int] == t);
        }
    }
}

/// One of the first alternatives allows the step.
spec fn step_by(sys: Sys, alts: Seq<Alternative>, n: int, s: State, t: State) -> bool {
    &&& sys.is_state(t)
    &&& sys.invariant_at(state_leaves(t))
    &&& all_hold(sems(sys.trans_defs, step_leaves(s, t)))
    &&& some_alternative(alts.take(n), step_leaves(s, t))
}

proof fn step_by_next(sys: Sys, alts: Seq<Alternative>, n: int, s: State, t: State)
    requires
        0 <= n < alts.len(),
    ensures
        step_by(sys, alts, n + 1, s, t) == (step_by(sys, alts, n, s, t) || (sys.is_state(t) && sys.invariant_at(
            state_leaves(t),
        ) && all_hold(sems(sys.trans_defs, step_leaves(s, t))) && hold_all(
            fe_models(alts[n].conditions@),
            step_leaves(s, t),
        ))),
{
    alternative_push(alts.take(n), alts[n], step_leaves(s, t));
    assert(alts.take(n).push(alts[n]) =~= alts.take(n + 1));
}

/// The solutions of an alternative are its steps.
proof fn step_solution(
    sys: Sys,
    a: Alternative,
    all: Seq<FE>,
    cu: Seq<Option<Val>>,
    ne: Seq<Option<Val>>,
    s: State,
    t: State,
)
    requires
        sys.plain(),
        finite(sys.leaves),
        sys.is_state(s),
        all == fe_models(a.conditions@) + sys.trans_defs + primeds(sys.invariants),
        cu.len() == s.len(),
        forall|i: int| 0 <= i < s.len() ==> #[trigger] cu[i] == Some(s[i]),
        ne.len() == sys.leaves.len(),
        forall|i: int| 0 <= i < ne.len() ==> (#[trigger] ne[i]) is None,
    ensures
        solution(sys.leaves, all, cu, ne, s, t) == (sys.is_state(t) && sys.invariant_at(state_leaves(t)) && all_hold(
            sems(sys.trans_defs, step_leaves(s, t)),
        ) && hold_all(fe_models(a.conditions@), step_leaves(s, t))),
{
    let x = step_leaves(s, t);
    let c = fe_models(a.conditions@);
    hold_plus(c + sys.trans_defs, primeds(sys.invariants), x);
    hold_plus(c, sys.trans_defs, x);
    hold_sems(sys.trans_defs, x);
    hold_sems(primeds(sys.invariants), x);
    let y = state_leaves(t);
    assert forall|l: LeafId| #[trigger] x(l, true) == y(l, false) by {}
    primeds_meaning(sys.invariants, x, y);
    assert(agrees_with(s, cu)) by {
        assert forall|i: int| 0 <= i < s.len() && cu[i] is Some implies #[trigger] s[i] == cu[i]->0 by {
            assert(cu[i] == Some(s[i]));
        }
    }
    assert(typed_state(sys.leaves, s)) by {
        assert forall|i: int| 0 <= i < s.len() implies of_type(sys.leaves[i], #[trigger] s[i]) by {}
    }
    if solution(sys.leaves, all, cu, ne, s, t) {
        assert forall|l: int| 0 <= l < t.len() implies leaf_values(sys.leaves[l]) is Some && leaf_values(
            sys.leaves[l],
        )->0.contains(#[trigger] t[l]) by {
            assert(of_type(sys.leaves[l], t[l]));
        }
    }
    if sys.is_state(t) {
        assert(agrees_with(t, ne));
        assert forall|i: int| 0 <= i < t.len() implies of_type(sys.leaves[i], #[trigger] t[i]) by {}
    }
}

proof fn hold_sems(cs: Seq<FE>, x: Leaves)
    ensures
        hold_all(cs, x) == all_hold(sems(cs, x)),
{
    let ss = sems(cs, x);
    if hold_all(cs, x) {
        assert forall|k: int| 0 <= k < ss.len() implies holds(#[trigger] ss[k]) by {
            assert(holds(sem(cs[k], x)));
        }
    }
    if all_hold(ss) {
        assert forall|k: int| 0 <= k < cs.len() implies holds(sem(#[trigger] cs[k], x)) by {
            assert(holds(ss[k]));
        }
    }
}

/// The solutions without a next state are the states in which the conditions hold.
proof fn state_solution(sys: Sys, bs: Seq<FE>, cu: Seq<Option<Val>>, ne: Seq<Option<Val>>, s: State)
    requires
        finite(sys.leaves),
        all_true(unprimeds(bs)),
        cu.len() == sys.leaves.len(),
        forall|i: int| 0 <= i < cu.len() ==> (#[trigger] cu[i]) is None,
        ne.len() == 0,
    ensures
        solution(sys.leaves, bs, cu, ne, s, Seq::empty()) == (sys.is_state(s) && hold_all(bs, state_leaves(s))),
{
    let e = Seq::<Val>::empty();
    let x = step_leaves(s, e);
    let y = state_leaves(s);
    assert forall|l: LeafId| #[trigger] x(l, false) == y(l, false) by {}
    assert forall|k: int| 0 <= k < bs.len() implies sem(#[trigger] bs[k], x) == sem(bs[k], y) by {
        assert(unprimeds(bs)[k]);
        unprimed_meaning(bs[k], x, y);
    }
    assert(hold_all(bs, x) == hold_all(bs, y)) by {
        if hold_all(bs, x) {
            assert forall|k: int| 0 <= k < bs.len() implies holds(sem(#[trigger] bs[k], y)) by {
                assert(holds(sem(bs[k], x)));
            }
        }
        if hold_all(bs, y) {
            assert forall|k: int| 0 <= k < bs.len() implies holds(sem(#[trigger] bs[k], x)) by {
                assert(holds(sem(bs[k], y)));
            }
        }
    }
    if solution(sys.leaves, bs, cu, ne, s, e) {
        assert forall|l: int| 0 <= l < s.len() implies leaf_values(sys.leaves[l]) is Some && leaf_values(
            sys.leaves[l],
        )->0.contains(#[trigger] s[l]) by {
            assert(of_type(sys.leaves[l], s[l]));
        }
    }
    if sys.is_state(s) {
        assert(agrees_with(s, cu));
        assert forall|i: int| 0 <= i < s.len() implies of_type(sys.leaves[i], #[trigger] s[i]) by {}
    }
}

/// The blocks from `b` on each have a command that can run.
spec fn choices_from(cs: Seq<Seq<Cmd>>, b: int, x: Leaves) -> bool {
    forall|i: int| b <= i < cs.len() ==> some_cmd(#[trigger] cs[i], x)
}

proof fn choices_next(cs: Seq<Seq<Cmd>>, b: int, x: Leaves)
    requires
        0 <= b < cs.len(),
    ensures
        choices_from(cs, b, x) == (some_cmd(cs[b], x) && choices_from(cs, b + 1, x)),
{
    if choices_from(cs, b, x) {
        assert(some_cmd(cs[b], x));
    }
}

proof fn some_cmd_next(ms: Seq<Cmd>, i: int, x: Leaves)
    requires
        0 <= i < ms.len(),
    ensures
        some_cmd(ms.take(i + 1), x) == (some_cmd(ms.take(i), x) || (holds(sem(ms[i].guard, x)) && holds(
            sem(ms[i].constraint, x),
        ))),
{
    let y = ms.take(i);
    let z = ms.take(i + 1);
    if some_cmd(y, x) {
        let k = choose|k: int|
            0 <= k < y.len() && holds(sem((#[trigger] y[k]).guard, x)) && holds(sem(y[k].constraint, x));
        assert(z[k] == y[k]);
    }
    if some_cmd(z, x) {
        let k = choose|k: int|
            0 <= k < z.len() && holds(sem((#[trigger] z[k]).guard, x)) && holds(sem(z[k].constraint, x));
        if k < i {
            assert(y[k] == z[k]);
        }
    }
    if holds(sem(ms[i].guard, x)) && holds(sem(ms[i].constraint, x)) {
        assert(z[i] == ms[i]);
    }
}

/// The conditions of an initial command speak of the current state only.
proof fn command_unprimed(c: &FlatCmd, sys: Sys, b: int, i: int, am: Seq<FE>)
    requires
        sys.plain(),
        0 <= b < sys.init_choices.len(),
        0 <= i < sys.init_choices[b].len(),
        sys.init_choices[b][i] == c.model(),
        am.len() == 2,
        am[0] == c.model().guard,
        am[1] == c.model().constraint,
    ensures
        forall|k: int| 0 <= k < am.len() ==> unprimed(#[trigger] am[k]),
{
    assert(crate::flat::cmds_unprimed(sys.init_choices[b]));
}


/// The states found so far: each with the place of the one that it was found from, where it is not
/// initial, and the label of the step.
struct Found {
    states: Vec<Vec<Value>>,
    from: Vec<Option<(usize, String)>>,
    /// How many steps lead to each state.
    depths: Ghost<Seq<int>>,
}

impl Found {
    /// Each state is initial, or a step leads to it from one found before.
    spec fn wf(&self, sys: Sys) -> bool {
        &&& self.states@.len() == self.from@.len()
        &&& self.states@.len() == self.depths@.len()
        &&& forall|i: int| 0 <= i < self.states@.len() ==> self.reason(sys, i)
    }

    spec fn reason(&self, sys: Sys, i: int) -> bool {
        match self.from@[i] {
            None => sys.initial(models((#[trigger] self.states@[i])@)) && self.depths@[i] == 0,
            Some((j, l)) => j < i && sys.step(models(self.states@[j as int]@), models(self.states@[i]@)) && led_by(
                sys.trans,
                models(self.states@[j as int]@),
                models(self.states@[i]@),
                l@,
            ) && self.depths@[i] == self.depths@[j as int] + 1,
        }
    }

    /// The state is there, at most `d` steps away.
    spec fn near(&self, s: State, d: int) -> bool {
        exists|k: int| 0 <= k < self.states@.len() && #[trigger] self.all()[k] == s && self.depths@[k] <= d
    }

    /// The states lie in the order of the steps that lead to them, and those behind `head` are at most one step further;
    /// what a step leads to from one before `head` is there, one step further at most.
    spec fn layered(&self, sys: Sys, head: int) -> bool {
        &&& forall|i: int, j: int|
            0 <= i <= j < self.depths@.len() ==> #[trigger] self.depths@[i] <= #[trigger] self.depths@[j]
        &&& forall|i: int| 0 <= i < self.depths@.len() && 0 <= head < self.depths@.len() ==> #[trigger]
            self.depths@[i] <= self.depths@[head] + 1
        &&& forall|i: int, t: State|
            0 <= i < head && i < self.states@.len() && #[trigger] sys.step(self.all()[i], t) ==> self.near(
                t,
                self.depths@[i] + 1,
            )
    }

    /// A run ends in a state that is there, no further away than the run is long, or is longer than the way to `head`.
    proof fn overtakes(&self, sys: Sys, head: int, p: Seq<State>)
        requires
            self.wf(sys),
            self.layered(sys, head),
            has_initial(sys, self.all()),
            forall|k: int| 0 <= k < self.states@.len() && sys.initial(#[trigger] self.all()[k]) ==> self.depths@[k] == 0,
            0 <= head < self.states@.len(),
            sys.run(p),
        ensures
            self.near(p.last(), p.len() - 1) || self.depths@[head] <= p.len() - 2,
        decreases p.len(),
    {
        if p.len() == 1 {
            assert(sys.initial(p[0]));
            assert(self.all().contains(p[0]));
            let k = choose|k: int| 0 <= k < self.all().len() && self.all()[k] == p[0];
            assert(self.all()[k] == p[0] && self.depths@[k] == 0);
        } else {
            let q = p.drop_last();
            assert forall|i: int| 0 <= i < q.len() - 1 implies sys.step(#[trigger] q[i], q[i + 1]) by {
                assert(sys.step(p[i], p[i + 1]));
            }
            self.overtakes(sys, head, q);
            assert(sys.step(p[p.len() - 2], p[p.len() - 2 + 1]));
            if self.near(q.last(), q.len() - 1) {
                let k = choose|k: int|
                    0 <= k < self.states@.len() && #[trigger] self.all()[k] == q.last() && self.depths@[k] <= q.len() - 1;
                if k < head {
                    assert(sys.step(self.all()[k], p.last()));
                    assert(self.near(p.last(), self.depths@[k] + 1));
                    let z = choose|z: int|
                        0 <= z < self.states@.len() && #[trigger] self.all()[z] == p.last() && self.depths@[z]
                            <= self.depths@[k] + 1;
                    assert(self.all()[z] == p.last() && self.depths@[z] <= p.len() - 1);
                } else {
                    assert(self.depths@[head] <= self.depths@[k]);
                }
            }
        }
    }

    spec fn all(&self) -> Seq<State> {
        state_models(self.states@)
    }

    proof fn sound(&self, sys: Sys, i: int)
        requires
            self.wf(sys),
            0 <= i < self.states@.len(),
        ensures
            sys.is_state(models(self.states@[i]@)),
            sys.invariant_at(state_leaves(models(self.states@[i]@))),
    {
        assert(self.reason(sys, i));
    }

    fn add(&mut self, s: Vec<Value>, from: Option<(usize, String)>, Ghost(sys): Ghost<Sys>)
        requires
            old(self).wf(sys),
            match from {
                None => sys.initial(models(s@)),
                Some((j, l)) => j < old(self).states@.len() && sys.step(
                    models(old(self).states@[j as int]@),
                    models(s@),
                ) && led_by(sys.trans, models(old(self).states@[j as int]@), models(s@), l@),
            },
        ensures
            final(self).wf(sys),
            final(self).states@ == old(self).states@.push(s),
            final(self).depths@ == old(self).depths@.push(
                match from {
                    None => 0int,
                    Some((j, _)) => old(self).depths@[j as int] + 1,
                },
            ),
    {
        let ghost o = *self;
        let ghost d: int = match from {
            None => 0int,
            Some((j, _)) => self.depths@[j as int] + 1,
        };
        self.states.push(s);
        self.from.push(from);
        self.depths = Ghost(self.depths@.push(d));
        proof {
            assert forall|i: int| 0 <= i < self.states@.len() implies self.reason(sys, i) by {
                if i < o.states@.len() {
                    assert(o.reason(sys, i));
                }
            }
        }
    }

    /// The run to a state.
    fn reconstruct(&self, end: usize, Ghost(sys): Ghost<Sys>) -> (r: Path)
        requires
            self.wf(sys),
            end < self.states@.len(),
        ensures
            sys.run(r.states()),
            r.states().last() == models(self.states@[end as int]@),
            r.states().len() == self.depths@[end as int] + 1,
            r.labelled(sys.trans),
        decreases end,
    {
        proof {
            assert(self.reason(sys, end as int));
        }
        match &self.from[end] {
            None => {
                let mut steps: Vec<(Vec<Value>, Option<String>)> = Vec::new();
                steps.push((clone_values(&self.states[end]), None));
                let r = Path { steps };
                assert(r.states()[0] == models(self.states@[end as int]@));
                r
            },
            Some((j, label)) => {
                let before = self.reconstruct(*j, Ghost(sys));
                let ghost p = before.states();
                let mut steps = before.steps;
                let ghost s0 = steps@;
                steps.push((clone_values(&self.states[end]), Some(label.clone())));
                let r = Path { steps };
                proof {
                    let t = models(self.states@[end as int]@);
                    assert(r.states() =~= p.push(t));
                    let q = r.states();
                    labels_push(s0, sys.trans, r.steps@.last().0, r.steps@.last().1->0);
                    assert(s0.last() == before.steps@.last());
                    assert forall|i: int| 0 <= i < q.len() - 1 implies sys.step(#[trigger] q[i], q[i + 1]) by {
                        if i < p.len() - 1 {
                            assert(sys.step(p[i], p[i + 1]));
                        } else {
                            assert(q[i] == p.last());
                        }
                    }
                    assert(q[0] == p[0]);
                }
                r
            },
        }
    }
}

/// A set of states that holds the initial ones and those that steps lead to holds all reachable
/// ones.
proof fn closed_reachable(sys: Sys, v: Seq<State>, p: Seq<State>)
    requires
        forall|s: State| sys.initial(s) ==> #[trigger] v.contains(s),
        forall|s: State, t: State| v.contains(s) && #[trigger] sys.step(s, t) ==> v.contains(t),
        sys.run(p),
    ensures
        v.contains(p.last()),
    decreases p.len(),
{
    if p.len() == 1 {
        assert(sys.initial(p[0]));
        assert(v.contains(p[0]));
    } else {
        let q = p.drop_last();
        assert forall|i: int| 0 <= i < q.len() - 1 implies sys.step(#[trigger] q[i], q[i + 1]) by {
            assert(sys.step(p[i], p[i + 1]));
        }
        closed_reachable(sys, v, q);
        assert(sys.step(p[p.len() - 2], p[p.len() - 2 + 1]));
        assert(q.last() == p[p.len() - 2]);
    }
}

/// The initial states are all there.
spec fn has_initial(sys: Sys, v: Seq<State>) -> bool {
    forall|s: State| sys.initial(s) ==> #[trigger] v.contains(s)
}

/// Every step from the first `n` states leads to a state that is there.
spec fn closed_below(sys: Sys, v: Seq<State>, n: int) -> bool {
    forall|i: int, t: State| 0 <= i < n && #[trigger] sys.step(v[i], t) ==> v.contains(t)
}

proof fn contains_push(v: Seq<State>, s: State)
    ensures
        forall|t: State| #[trigger] v.push(s).contains(t) == (v.contains(t) || t == s),
{
    assert forall|t: State| #[trigger] v.push(s).contains(t) == (v.contains(t) || t == s) by {
        let w = v.push(s);
        if v.contains(t) {
            let i = choose|i: int| 0 <= i < v.len() && v[i] == t;
            assert(w[i] == t);
        }
        if t == s {
            assert(w[v.len() as int] == t);
        }
        if w.contains(t) {
            let i = choose|i: int| 0 <= i < w.len() && w[i] == t;
            if i < v.len() {
                assert(v[i] == t);
            }
        }
    }
}

/// There are more than `n` reachable states.
pub open spec fn crowded(sys: Sys, n: int) -> bool {
    exists|v: Seq<State>| #[trigger] reached(sys, v) && v.len() > n
}

/// The states are all different, and reachable.
pub open spec fn reached(sys: Sys, v: Seq<State>) -> bool {
    v.no_duplicates() && forall|k: int| 0 <= k < v.len() ==> sys.reachable(#[trigger] v[k])
}

impl<'m> Explicit<'m> {
    /// Why a search ends without an outcome: a condition of the system or the property (`sure` says that the
    /// property can) cannot be evaluated, or there are more combinations or more reachable states than the engine looks at.
    pub open spec fn gives_up(&self, x: EngineError, sure: bool) -> bool {
        match x {
            EngineError::Eval(_) => !(sure && init_clean(self.sys()) && step_clean(self.sys())),
            EngineError::TooLarge(_) => too_wide(self.sys().leaves, self.max_enum) || crowded(
                self.sys(),
                self.max_states as int,
            ),
            EngineError::InfiniteType(_) => false,
        }
    }
}

/// A run that ends in such a state and is no longer than any other that does.
pub open spec fn shortest(sys: Sys, p: Seq<State>, bad: spec_fn(State) -> bool) -> bool {
    &&& sys.run(p)
    &&& bad(p.last())
    &&& forall|q: Seq<State>| #[trigger] sys.run(q) && bad(q.last()) ==> p.len() <= q.len()
}

/// What the search looks for.
enum Goal<'p> {
    Violation(&'p FExpr),
    Dead,
}

/// Each state found is reachable.
proof fn found_reachable(sys: Sys, f: &Found, i: int)
    requires
        f.wf(sys),
        0 <= i < f.states@.len(),
    ensures
        sys.reachable(models(f.states@[i]@)),
    decreases i,
{
    let t = models(f.states@[i]@);
    assert(f.reason(sys, i));
    match f.from@[i] {
        None => {
            let p = seq![t];
            assert(sys.run(p) && p.last() == t);
        },
        Some((j, _)) => {
            found_reachable(sys, f, j as int);
            stepped(sys, models(f.states@[j as int]@), t);
        },
    }
}

/// What a step leads to from a reachable state is reachable.
proof fn stepped(sys: Sys, s: State, t: State)
    requires
        sys.reachable(s),
        sys.step(s, t),
    ensures
        sys.reachable(t),
{
    let p = choose|p: Seq<State>| #[trigger] sys.run(p) && p.last() == s;
    let q = p.push(t);
    assert forall|j: int| 0 <= j < q.len() - 1 implies sys.step(#[trigger] q[j], q[j + 1]) by {
        if j < p.len() - 1 {
            assert(sys.step(p[j], p[j + 1]));
        }
    }
    assert(q[0] == p[0]);
    assert(sys.run(q) && q.last() == t);
}

/// The states found with one that is new, initial or reached from one of them.
proof fn one_more(sys: Sys, f: &Found, s: State, t: State)
    requires
        f.wf(sys),
        f.all().no_duplicates(),
        !f.all().contains(t),
        sys.initial(t) || (f.all().contains(s) && sys.step(s, t)),
    ensures
        reached(sys, f.all().push(t)),
{
    let v = f.all().push(t);
    assert forall|k: int| 0 <= k < v.len() implies sys.reachable(#[trigger] v[k]) by {
        if k < f.all().len() {
            found_reachable(sys, f, k);
        } else if sys.initial(t) {
            let p = seq![t];
            assert(sys.run(p) && p.last() == t);
        } else {
            let i = choose|i: int| 0 <= i < f.all().len() && f.all()[i] == s;
            found_reachable(sys, f, i);
            stepped(sys, s, t);
        }
    }
}

/// One more state, a step from the one at `head`, keeps the order.
proof fn added(sys: Sys, f: &Found, g: &Found, head: int, t: State)
    requires
        f.wf(sys),
        g.wf(sys),
        f.layered(sys, head),
        0 <= head < f.states@.len(),
        g.all() == f.all().push(t),
        g.depths@ == f.depths@.push(f.depths@[head] + 1),
    ensures
        g.layered(sys, head),
        forall|s: State, d: int| #[trigger] f.near(s, d) ==> g.near(s, d),
{
    assert forall|s: State, d: int| #[trigger] f.near(s, d) implies g.near(s, d) by {
        let k = choose|k: int| 0 <= k < f.states@.len() && #[trigger] f.all()[k] == s && f.depths@[k] <= d;
        assert(g.all()[k] == s && g.depths@[k] <= d);
        assert(g.all().len() == g.states@.len());
    }
    assert forall|i: int, u: State|
        0 <= i < head && i < g.states@.len() && #[trigger] sys.step(g.all()[i], u) implies g.near(u, g.depths@[i] + 1) by {
        assert(sys.step(f.all()[i], u));
        assert(f.near(u, f.depths@[i] + 1));
    }
}

impl<'m> Explicit<'m> {
    /// Breadth-first search through the reachable states: a run to the first state in which the
    /// property does not hold or which no step leaves, if there is one.
    fn search(&self, goal: Goal) -> (r: Result<Option<Path>, EngineError>)
        requires
            self.wf(),
            goal matches Goal::Violation(p) ==> unprimed(p.model()),
        ensures
            match r {
                Ok(Some(path)) => path.labelled(self.sys().trans) && match goal {
                    Goal::Violation(p) => shortest(self.sys(), path.states(), |s: State| !holds_in(p.model(), s)),
                    Goal::Dead => shortest(self.sys(), path.states(), |s: State| self.sys().stuck(s)),
                },
                Ok(None) => forall|s: State| #[trigger]
                    self.sys().reachable(s) ==> match goal {
                        Goal::Violation(p) => holds_in(p.model(), s),
                        Goal::Dead => !self.sys().stuck(s),
                    },
                Err(x) => self.gives_up(
                    x,
                    goal matches Goal::Violation(p) ==> clean(p.model(), self.sys().leaves, false) == Some(Kind::B),
                ),
            },
    {
        let ghost sys = self.sys();
        let mut found = Found { states: Vec::new(), from: Vec::new(), depths: Ghost(Seq::empty()) };
        let start = match self.initial_states() {
            Ok(v) => v,
            Err(x) => {
                return Err(x);
            },
        };
        let mut i: usize = 0;
        while i < start.len()
            invariant
                i <= start@.len(),
                self.wf(),
                sys == self.sys(),
                forall|s: State| #[trigger] state_models(start@).contains(s) == sys.initial(s),
                found.wf(sys),
                found.all().no_duplicates(),
                forall|k: int| 0 <= k < found.depths@.len() ==> #[trigger] found.depths@[k] == 0,
                goal matches Goal::Violation(p) ==> unprimed(p.model()) && forall|k: int|
                    0 <= k < found.all().len() ==> holds_in(p.model(), #[trigger] found.all()[k]),
                forall|k: int| 0 <= k < i ==> found.all().contains(#[trigger] state_models(start@)[k]),
            decreases start.len() - i,
        {
            let ghost sm = models(start@[i as int]@);
            proof {
                assert(state_models(start@)[i as int] == sm);
                assert(state_models(start@).contains(sm));
            }
            if find_state(&found.states, &start[i]).is_none() {
                proof {
                    one_more(sys, &found, sm, sm);
                }
                if found.states.len() >= self.max_states {
                    return Err(EngineError::TooLarge(own("too many states")));
                }
                let ghost f0 = found.all();
                let ghost fs = found.states@;
                found.add(clone_values(&start[i]), None, Ghost(sys));
                proof {
                    assert(found.all() =~= f0.push(sm));
                    contains_push(f0, sm);
                }
                match goal {
                    Goal::Violation(p) => {
                        match self.holds(p, &start[i]) {
                            Err(x) => {
                                return Err(x);
                            },
                            Ok(false) => {
                                let last: usize = found.states.len() - 1;
                                assert(found.all()[last as int] == sm);
                                return Ok(Some(found.reconstruct(last, Ghost(sys))));
                            },
                            Ok(true) => {},
                        }
                    },
                    Goal::Dead => {},
                }
            }
            i += 1;
        }
        proof {
            assert forall|s: State| sys.initial(s) implies #[trigger] found.all().contains(s) by {
                assert(state_models(start@).contains(s));
                let k = choose|k: int| 0 <= k < state_models(start@).len() && state_models(start@)[k] == s;
                assert(found.all().contains(state_models(start@)[k]));
            }
        }
        let mut head: usize = 0;
        assert(found.layered(sys, 0));
        while head < found.states.len()
            invariant
                head <= found.states@.len(),
                self.wf(),
                sys == self.sys(),
                found.wf(sys),
                found.all().no_duplicates(),
                has_initial(sys, found.all()),
                found.layered(sys, head as int),
                forall|k: int|
                    0 <= k < found.states@.len() && sys.initial(#[trigger] found.all()[k]) ==> found.depths@[k] == 0,
                closed_below(sys, found.all(), head as int),
                goal matches Goal::Violation(p) ==> unprimed(p.model()) && forall|k: int|
                    0 <= k < found.all().len() ==> holds_in(p.model(), #[trigger] found.all()[k]),
                goal is Dead ==> forall|k: int| 0 <= k < head ==> !sys.stuck(#[trigger] found.all()[k]),
            decreases (if found.states@.len() <= self.max_states {
                self.max_states - found.states@.len()
            } else {
                0
            }), found.states@.len() - head,
        {
            let ghost hm = found.all()[head as int];
            proof {
                found.sound(sys, head as int);
            }
            let succs = match self.successors(&found.states[head]) {
                Ok(v) => v,
                Err(x) => {
                    return Err(x);
                },
            };
            match goal {
                Goal::Dead => {
                    if succs.len() == 0 {
                        proof {
                            assert forall|t: State| !#[trigger] sys.step(hm, t) by {
                                assert(listed(succs@, t) == sys.step(hm, t));
                            }
                        }
                        proof {
                            assert forall|q: Seq<State>| #[trigger] sys.run(q) && sys.stuck(q.last()) implies
                                found.depths@[head as int] + 1 <= q.len() by {
                                found.overtakes(sys, head as int, q);
                                if found.near(q.last(), q.len() - 1) {
                                    let k = choose|k: int|
                                        0 <= k < found.states@.len() && #[trigger] found.all()[k] == q.last()
                                            && found.depths@[k] <= q.len() - 1;
                                    assert(k >= head);
                                }
                            }
                        }
                        return Ok(Some(found.reconstruct(head, Ghost(sys))));
                    }
                    proof {
                        let t = models(succs@[0].0@);
                        assert(listed(succs@, t));
                        assert(sys.step(hm, t));
                    }
                },
                Goal::Violation(_) => {},
            }
            let ghost n0 = found.states@.len();
            let mut j: usize = 0;
            while j < succs.len()
                invariant
                    j <= succs@.len(),
                    head < found.states@.len(),
                    n0 <= found.states@.len(),
                    found.states@.len() == n0 || found.states@.len() <= self.max_states,
                    n0 == found.states@.len() || n0 < self.max_states,
                    self.wf(),
                    sys == self.sys(),
                    found.wf(sys),
                    found.all().no_duplicates(),
                    has_initial(sys, found.all()),
                    found.layered(sys, head as int),
                    forall|k: int|
                    0 <= k < found.states@.len() && sys.initial(#[trigger] found.all()[k]) ==> found.depths@[k] == 0,
                    closed_below(sys, found.all(), head as int),
                    hm == found.all()[head as int],
                    forall|t: State| #[trigger] listed(succs@, t) == sys.step(hm, t),
                    forall|k: int|
                        0 <= k < succs@.len() ==> led_by(sys.trans, hm, models((#[trigger] succs@[k]).0@), succs@[k].1@),
                    forall|k: int|
                        0 <= k < j ==> found.near(models((#[trigger] succs@[k]).0@), found.depths@[head as int] + 1),
                    goal matches Goal::Violation(p) ==> unprimed(p.model()) && forall|k: int|
                        0 <= k < found.all().len() ==> holds_in(p.model(), #[trigger] found.all()[k]),
                    goal is Dead ==> forall|k: int| 0 <= k < head + 1 ==> !sys.stuck(#[trigger] found.all()[k]),
                decreases succs.len() - j,
            {
                let ghost tm = models(succs@[j as int].0@);
                proof {
                    assert(listed(succs@, tm));
                }
                if find_state(&found.states, &succs[j].0).is_none() {
                    proof {
                        found.sound(sys, head as int);
                        one_more(sys, &found, hm, tm);
                    }
                    if found.states.len() >= self.max_states {
                        return Err(EngineError::TooLarge(own("too many states")));
                    }
                    let ghost f0 = found.all();
                    let ghost g = found;
                    found.add(clone_values(&succs[j].0), Some((head, succs[j].1.clone())), Ghost(sys));
                    proof {
                        assert(found.all() =~= f0.push(tm));
                        contains_push(f0, tm);
                        added(sys, &g, &found, head as int, tm);
                        assert(found.all()[f0.len() as int] == tm);
                        assert(found.near(tm, found.depths@[head as int] + 1));
                        assert forall|k: int, t: State| 0 <= k < head
                            && #[trigger] sys.step(found.all()[k], t) implies found.all().contains(
                            t,
                        ) by {
                            assert(found.all()[k] == f0[k]);
                            assert(f0.contains(t));
                        }
                        if goal is Dead {
                            assert forall|k: int| 0 <= k < head + 1 implies !sys.stuck(#[trigger] found.all()[k]) by {
                                assert(found.all()[k] == f0[k]);
                            }
                        }
                    }
                    match goal {
                        Goal::Violation(p) => {
                            match self.holds(p, &succs[j].0) {
                                Err(x) => {
                                    return Err(x);
                                },
                                Ok(false) => {
                                    let last: usize = found.states.len() - 1;
                                    proof {
                                        assert(found.all()[last as int] == tm);
                                        assert forall|q: Seq<State>| #[trigger] sys.run(q) && !holds_in(
                                            p.model(),
                                            q.last(),
                                        ) implies found.depths@[last as int] + 1 <= q.len() by {
                                            g.overtakes(sys, head as int, q);
                                            if g.near(q.last(), q.len() - 1) {
                                                let k = choose|k: int|
                                                    0 <= k < g.states@.len() && #[trigger] g.all()[k] == q.last()
                                                        && g.depths@[k] <= q.len() - 1;
                                                assert(holds_in(p.model(), g.all()[k]));
                                            }
                                        }
                                    }
                                    return Ok(Some(found.reconstruct(last, Ghost(sys))));
                                },
                                Ok(true) => {},
                            }
                        },
                        Goal::Dead => {},
                    }
                } else {
                    proof {
                        assert(found.all().contains(tm));
                        let k = choose|k: int| 0 <= k < found.all().len() && found.all()[k] == tm;
                        assert(found.all()[k] == tm && found.depths@[k] <= found.depths@[head as int] + 1);
                    }
                }
                j += 1;
            }
            proof {
                assert forall|k: int, t: State| 0 <= k < head + 1
                    && #[trigger] sys.step(found.all()[k], t) implies found.all().contains(
                    t,
                ) by {
                    if k == head {
                        assert(listed(succs@, t));
                        let z = choose|z: int| 0 <= z < succs@.len() && models((#[trigger] succs@[z]).0@) == t;
                        assert(found.near(models(succs@[z].0@), found.depths@[head as int] + 1));
                    }
                }
                assert forall|i: int, t: State| 0 <= i < head + 1 && #[trigger] sys.step(found.all()[i], t) implies
                    found.near(t, found.depths@[i] + 1) by {
                    if i == head {
                        assert(listed(succs@, t));
                        let z = choose|z: int| 0 <= z < succs@.len() && models((#[trigger] succs@[z]).0@) == t;
                        assert(found.near(models(succs@[z].0@), found.depths@[head as int] + 1));
                    }
                }
            }
            head += 1;
        }
        proof {
            let v = found.all();
            assert forall|s: State, t: State| v.contains(s) && #[trigger] sys.step(s, t) implies v.contains(t) by {
                let k = choose|k: int| 0 <= k < v.len() && v[k] == s;
                assert(sys.step(v[k], t));
            }
            assert forall|s: State| #[trigger] sys.reachable(s) implies match goal {
                Goal::Violation(p) => holds_in(p.model(), s),
                Goal::Dead => !sys.stuck(s),
            } by {
                let p = choose|p: Seq<State>| #[trigger] sys.run(p) && p.last() == s;
                closed_reachable(sys, v, p);
                let k = choose|k: int| 0 <= k < v.len() && v[k] == s;
                assert(v[k] == s);
            }
        }
        Ok(None)
    }

    /// Checks that the property holds in every reachable state; a counterexample is as short as any.
    pub fn check_invariant(&self, prop: &FExpr) -> (r: Result<CheckResult, EngineError>)
        requires
            self.wf(),
            unprimed(prop.model()),
        ensures
            match r {
                Ok(CheckResult::Proved) => forall|s: State| #[trigger]
                    self.sys().reachable(s) ==> holds_in(prop.model(), s),
                Ok(CheckResult::Counterexample(p)) => p.labelled(self.sys().trans) && shortest(
                    self.sys(),
                    p.states(),
                    |s: State| !holds_in(prop.model(), s),
                ),
                Ok(_) => false,
                Err(x) => self.gives_up(x, clean(prop.model(), self.sys().leaves, false) == Some(Kind::B)),
            },
    {
        match self.search(Goal::Violation(prop)) {
            Err(x) => Err(x),
            Ok(Some(p)) => Ok(CheckResult::Counterexample(p)),
            Ok(None) => Ok(CheckResult::Proved),
        }
    }

    /// Looks for a reachable state that no step leaves; the run to it is as short as any.
    pub fn check_deadlock(&self) -> (r: Result<CheckResult, EngineError>)
        requires
            self.wf(),
        ensures
            match r {
                Ok(CheckResult::Fine) => forall|s: State| #[trigger] self.sys().reachable(s) ==> !self.sys().stuck(s),
                Ok(CheckResult::Deadlock(p)) => p.labelled(self.sys().trans) && shortest(
                    self.sys(),
                    p.states(),
                    |s: State| self.sys().stuck(s),
                ),
                Ok(_) => false,
                Err(x) => self.gives_up(x, true),
            },
    {
        match self.search(Goal::Dead) {
            Err(x) => Err(x),
            Ok(Some(p)) => Ok(CheckResult::Deadlock(p)),
            Ok(None) => Ok(CheckResult::Fine),
        }
    }
}

} // verus!
