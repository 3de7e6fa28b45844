//! Evaluation where some leaves have no value yet.

use crate::arith::{bad, compute, Arith};
use crate::explicit::EngineError;
use crate::fexpr::{
    all_hold, fe_models, holds, leaf_value, leaf_values, number, of_number, product, sem, sems, some_holds, total,
    truth, unprimed, unprimeds, FExpr, LeafId, LeafType, Leaves, FE, LT,
};
use crate::num::{ratio, Int, Rat, Q};
use crate::value::{Val, Value};
use vstd::prelude::*;

verus! {

/// The content of an optional value.
pub open spec fn slot(v: Option<Value>) -> Option<Val> {
    match v {
        Some(x) => Some(x.model()),
        None => None,
    }
}

/// The content of optional values.
pub open spec fn slots(v: Seq<Option<Value>>) -> Seq<Option<Val>> {
    Seq::new(v.len(), |i: int| slot(v[i]))
}

/// The leaves have the values that are known.
pub open spec fn fits(cur: Seq<Option<Val>>, next: Seq<Option<Val>>, x: Leaves) -> bool {
    &&& forall|l: LeafId| (l as int) < cur.len() && cur[l as int] is Some ==> #[trigger] x(l, false) == cur[l as int]
    &&& forall|l: LeafId| (l as int) < next.len() && next[l as int] is Some ==> #[trigger] x(l, true) == next[l as int]
}

/// All values are known.
pub open spec fn full(v: Seq<Option<Val>>) -> bool {
    forall|i: int| 0 <= i < v.len() ==> (#[trigger] v[i]) is Some
}

/// A copy of an optional value.
pub fn clone_slot(v: &Option<Value>) -> (r: Option<Value>)
    ensures
        slot(r) == slot(*v),
{
    match v {
        Some(x) => Some(x.clone()),
        None => None,
    }
}

/// Everything that the expression reads is known.
pub open spec fn settled(e: FE, cur: Seq<Option<Val>>, next: Seq<Option<Val>>) -> bool {
    full(cur) && (unprimed(e) || full(next))
}

/// What evaluation with partial knowledge gives: a value that the expression has however the
/// unknown leaves are chosen, or nothing where that is not settled.
pub open spec fn partly(e: FE, cur: Seq<Option<Val>>, next: Seq<Option<Val>>, r: Option<Val>) -> bool {
    match r {
        Some(v) => forall|x: Leaves| #[trigger] fits(cur, next, x) ==> sem(e, x) == Some(v),
        None => !settled(e, cur, next),
    }
}

/// What kind of values an expression can be relied on to have.
pub ghost enum Kind {
    /// Truth values.
    B,
    /// Whole numbers.
    W,
    /// Numbers.
    N,
    /// Any values.
    O,
}

/// The value is of the kind.
pub open spec fn kind_has(k: Kind, v: Val) -> bool {
    match k {
        Kind::B => v is Bool,
        Kind::W => v matches Val::Num(q) && q.is_int(),
        Kind::N => v is Num,
        Kind::O => true,
    }
}

/// The kind of a leaf's values.
pub open spec fn leaf_kind(t: LT) -> Kind {
    match t {
        LT::Bool => Kind::B,
        LT::Range(_, _) => Kind::W,
        LT::Scalar(_, _) => Kind::O,
        _ => Kind::N,
    }
}

/// The kind is one of numbers.
pub open spec fn numeric(k: Option<Kind>) -> bool {
    k == Some(Kind::W) || k == Some(Kind::N)
}

/// The kind, under a condition.
pub open spec fn kind_if(b: bool, k: Kind) -> Option<Kind> {
    if b {
        Some(k)
    } else {
        None
    }
}

/// All are of the kind.
pub open spec fn all_kind(ks: Seq<Option<Kind>>, k: Kind) -> bool {
    forall|i: int| 0 <= i < ks.len() ==> #[trigger] ks[i] == Some(k)
}

/// All are kinds of numbers.
pub open spec fn all_numeric(ks: Seq<Option<Kind>>) -> bool {
    forall|i: int| 0 <= i < ks.len() ==> numeric(#[trigger] ks[i])
}

/// The kind of a sum or product.
pub open spec fn fold_kind(ks: Seq<Option<Kind>>) -> Option<Kind> {
    if all_kind(ks, Kind::W) {
        Some(Kind::W)
    } else {
        kind_if(all_numeric(ks), Kind::N)
    }
}

/// The divisor is a number other than zero, and a whole one where that is asked for.
pub open spec fn sure_divisor(e: FE, whole: bool) -> bool {
    e matches FE::Const(Val::Num(q)) && q.n != 0 && (whole ==> q.is_int())
}

/// The kind of an expression over leaves of the given types, if each of its parts has a value wherever the leaves have
/// values: the operators are given operands of the kinds that they take, and only constants other than zero divide.
/// Next values may occur where `primed` says so.
pub open spec fn clean(e: FE, ts: Seq<LT>, primed: bool) -> Option<Kind>
    decreases e,
{
    match e {
        FE::Const(v) => Some(
            match v {
                Val::Bool(_) => Kind::B,
                Val::Num(q) => if q.is_int() {
                    Kind::W
                } else {
                    Kind::N
                },
                _ => Kind::O,
            },
        ),
        FE::Var(l, p) => if (l as int) < ts.len() && (p ==> primed) {
            Some(leaf_kind(ts[l as int]))
        } else {
            None
        },
        FE::Not(a) => kind_if(clean(*a, ts, primed) == Some(Kind::B), Kind::B),
        FE::And(es) => kind_if(all_kind(cleans(es, ts, primed), Kind::B), Kind::B),
        FE::Or(es) => kind_if(all_kind(cleans(es, ts, primed), Kind::B), Kind::B),
        FE::Ite(c, t, f) => if clean(*c, ts, primed) != Some(Kind::B) {
            None
        } else if clean(*t, ts, primed) == clean(*f, ts, primed) {
            clean(*t, ts, primed)
        } else if numeric(clean(*t, ts, primed)) && numeric(clean(*f, ts, primed)) {
            Some(Kind::N)
        } else {
            None
        },
        FE::Eq(a, b) => kind_if(clean(*a, ts, primed) is Some && clean(*b, ts, primed) is Some, Kind::B),
        FE::Lt(a, b) => kind_if(numeric(clean(*a, ts, primed)) && numeric(clean(*b, ts, primed)), Kind::B),
        FE::Le(a, b) => kind_if(numeric(clean(*a, ts, primed)) && numeric(clean(*b, ts, primed)), Kind::B),
        FE::Add(es) => fold_kind(cleans(es, ts, primed)),
        FE::Mul(es) => fold_kind(cleans(es, ts, primed)),
        FE::Neg(a) => if numeric(clean(*a, ts, primed)) {
            clean(*a, ts, primed)
        } else {
            None
        },
        FE::Div(a, b) => kind_if(numeric(clean(*a, ts, primed)) && sure_divisor(*b, false), Kind::N),
        FE::IDiv(a, b) => kind_if(clean(*a, ts, primed) == Some(Kind::W) && sure_divisor(*b, true), Kind::W),
        FE::Mod(a, b) => kind_if(clean(*a, ts, primed) == Some(Kind::W) && sure_divisor(*b, true), Kind::W),
    }
}

/// The kinds of several expressions.
pub open spec fn cleans(es: Seq<FE>, ts: Seq<LT>, primed: bool) -> Seq<Option<Kind>>
    decreases es,
{
    Seq::new(
        es.len(),
        |i: int|
            if 0 <= i < es.len() {
                clean(es[i], ts, primed)
            } else {
                arbitrary()
            },
    )
}

/// The known values are of the kinds of their leaves.
pub open spec fn kinds_fit(ts: Seq<LT>, s: Seq<Option<Val>>) -> bool {
    forall|i: int| 0 <= i < s.len() && i < ts.len() && (#[trigger] s[i]) is Some ==> kind_has(leaf_kind(ts[i]), s[i]->0)
}

/// There is a slot for each leaf, and the known values are of the kinds of their leaves.
pub open spec fn prepared(ts: Seq<LT>, cur: Seq<Option<Val>>, next: Seq<Option<Val>>, primed: bool) -> bool {
    &&& cur.len() >= ts.len()
    &&& primed ==> next.len() >= ts.len()
    &&& kinds_fit(ts, cur)
    &&& kinds_fit(ts, next)
}

/// The outcome is a value of the kind, or open.
pub open spec fn as_kind(r: Result<Option<Value>, EngineError>, k: Kind) -> bool {
    match r {
        Ok(v) => slot(v) matches Some(x) ==> kind_has(k, x),
        Err(_) => false,
    }
}

proof fn whole_ratio(n: int)
    ensures
        ratio(n, 1) == Q::whole(n),
{
    let a = crate::num::abs(n);
    assert(crate::num::abs(1) == 1);
    assert(a % 1 == 0);
    reveal_with_fuel(crate::num::gcd, 3);
    assert(crate::num::gcd(1, 0) == 1);
    assert(crate::num::gcd(a, 1) == 1);
    assert(n / 1 == n);
    assert(1int / 1 == 1);
}

fn eval_junction(es: &Vec<FExpr>, conj: bool, cur: &Vec<Option<Value>>, next: &Vec<Option<Value>>) -> (r: Result<
    Option<Value>,
    EngineError,
>)
    ensures
        match r {
            Ok(v) => {
                &&& slot(v) matches Some(w) ==> forall|x: Leaves| #[trigger]
                    fits(slots(cur@), slots(next@), x) ==> Some(w) == truth(
                        if conj {
                            all_hold(sems(fe_models(es@), x))
                        } else {
                            some_holds(sems(fe_models(es@), x))
                        },
                    )
                &&& v is None ==> !(full(slots(cur@)) && (crate::fexpr::all_true(unprimeds(fe_models(es@))) || full(
                    slots(next@),
                )))
            },
            Err(x) => x is Eval,
        },
        forall|ts: Seq<LT>, primed: bool| #[trigger]
            prepared(ts, slots(cur@), slots(next@), primed) && all_kind(
                cleans(fe_models(es@), ts, primed),
                Kind::B,
            ) ==> as_kind(r, Kind::B),
    decreases es,
{
    let ghost ms = fe_models(es@);
    let ghost c = slots(cur@);
    let ghost n = slots(next@);
    let mut unknown = false;
    let mut i: usize = 0;
    while i < es.len()
        invariant
            i <= es@.len(),
            ms == fe_models(es@),
            c == slots(cur@),
            n == slots(next@),
            unknown ==> !(full(c) && (crate::fexpr::all_true(unprimeds(ms)) || full(n))),
            !unknown ==> forall|x: Leaves, k: int|
                #![trigger fits(c, n, x), ms[k]]
                fits(c, n, x) && 0 <= k < i ==> sem(ms[k], x) == truth(conj),
        decreases es.len() - i,
    {
        proof {
            assert(ms[i as int] == es@[i as int].model());
            assert(unprimeds(ms)[i as int] == unprimed(ms[i as int]));
            assert forall|ts: Seq<LT>, primed: bool| #[trigger] prepared(ts, c, n, primed) implies cleans(ms, ts, primed)[i as int]
                == clean(es@[i as int].model(), ts, primed) by {}
        }
        let v = match peval(&es[i], cur, next) {
            Ok(v) => v,
            Err(x) => {
                return Err(x);
            },
        };
        match v {
            Some(Value::Bool(b)) => {
                if b != conj {
                    proof {
                        assert forall|x: Leaves| #[trigger] fits(c, n, x) implies truth(b) == truth(
                            if conj {
                                all_hold(sems(ms, x))
                            } else {
                                some_holds(sems(ms, x))
                            },
                        ) by {
                            assert(sems(ms, x)[i as int] == sem(ms[i as int], x));
                            assert(sem(ms[i as int], x) == truth(b));
                            if !conj {
                                assert(holds(sems(ms, x)[i as int]));
                            }
                        }
                    }
                    return Ok(Some(Value::Bool(b)));
                }
            },
            Some(_) => {
                return Err(bad("boolean expected"));
            },
            None => {
                unknown = true;
            },
        }
        i += 1;
    }
    if unknown {
        Ok(None)
    } else {
        proof {
            assert forall|x: Leaves| #[trigger] fits(c, n, x) implies truth(conj) == truth(
                if conj {
                    all_hold(sems(ms, x))
                } else {
                    some_holds(sems(ms, x))
                },
            ) by {
                assert forall|k: int| 0 <= k < ms.len() implies #[trigger] sems(ms, x)[k] == truth(conj) by {
                    assert(sem(ms[k], x) == truth(conj));
                }
                if conj {
                    assert forall|k: int| 0 <= k < ms.len() implies holds(#[trigger] sems(ms, x)[k]) by {}
                }
            }
        }
        Ok(Some(Value::Bool(conj)))
    }
}

fn eval_fold(es: &Vec<FExpr>, mul: bool, cur: &Vec<Option<Value>>, next: &Vec<Option<Value>>) -> (r: Result<
    Option<Value>,
    EngineError,
>)
    ensures
        match r {
            Ok(v) => {
                &&& slot(v) matches Some(w) ==> forall|x: Leaves| #[trigger]
                    fits(slots(cur@), slots(next@), x) ==> Some(w) == of_number(
                        if mul {
                            product(sems(fe_models(es@), x))
                        } else {
                            total(sems(fe_models(es@), x))
                        },
                    )
                &&& v is None ==> !(full(slots(cur@)) && (crate::fexpr::all_true(unprimeds(fe_models(es@))) || full(
                    slots(next@),
                )))
            },
            Err(x) => x is Eval,
        },
        forall|ts: Seq<LT>, primed: bool| #[trigger]
            prepared(ts, slots(cur@), slots(next@), primed) && fold_kind(
                cleans(fe_models(es@), ts, primed),
            ) is Some ==> as_kind(r, fold_kind(cleans(fe_models(es@), ts, primed))->0),
    decreases es,
{
    let ghost ms = fe_models(es@);
    let ghost c = slots(cur@);
    let ghost n = slots(next@);
    let mut acc = Rat::from_integer(
        Int::from_u64(
            if mul {
                1
            } else {
                0
            },
        ),
    );
    let mut i: usize = 0;
    proof {
        assert forall|x: Leaves| #[trigger] fits(c, n, x) implies Some(acc@) == (if mul {
            product(sems(ms, x).take(0))
        } else {
            total(sems(ms, x).take(0))
        }) by {}
    }
    while i < es.len()
        invariant
            i <= es@.len(),
            ms == fe_models(es@),
            c == slots(cur@),
            n == slots(next@),
            forall|x: Leaves| #[trigger]
                fits(c, n, x) ==> Some(acc@) == (if mul {
                    product(sems(ms, x).take(i as int))
                } else {
                    total(sems(ms, x).take(i as int))
                }),
            forall|ts: Seq<LT>, primed: bool| #[trigger]
                prepared(ts, c, n, primed) && all_kind(cleans(ms, ts, primed), Kind::W) ==> acc@.is_int(),
        decreases es.len() - i,
    {
        proof {
            assert(ms[i as int] == es@[i as int].model());
            assert(unprimeds(ms)[i as int] == unprimed(ms[i as int]));
            assert forall|ts: Seq<LT>, primed: bool| #[trigger] prepared(ts, c, n, primed) implies cleans(ms, ts, primed)[i as int]
                == clean(es@[i as int].model(), ts, primed) by {}
        }
        let v = match peval(&es[i], cur, next) {
            Ok(v) => v,
            Err(x) => {
                return Err(x);
            },
        };
        match v {
            Some(Value::Num(q)) => {
                let ghost a0 = acc@;
                acc = if mul {
                    acc.times(&q)
                } else {
                    acc.plus(&q)
                };
                proof {
                    if a0.is_int() && q@.is_int() {
                        whole_ratio(a0.n + q@.n);
                        whole_ratio(a0.n * q@.n);
                        assert(a0.n * 1 + q@.n * 1 == a0.n + q@.n);
                    }
                    assert forall|x: Leaves| #[trigger] fits(c, n, x) implies Some(acc@) == (if mul {
                        product(sems(ms, x).take(i + 1))
                    } else {
                        total(sems(ms, x).take(i + 1))
                    }) by {
                        let ss = sems(ms, x);
                        assert(ss.take(i + 1).drop_last() =~= ss.take(i as int));
                        assert(ss.take(i + 1).last() == sem(ms[i as int], x));
                    }
                }
            },
            Some(_) => {
                return Err(bad("number expected"));
            },
            None => {
                return Ok(None);
            },
        }
        i += 1;
    }
    proof {
        assert forall|x: Leaves| #[trigger] fits(c, n, x) implies Some(acc@) == (if mul {
            product(sems(ms, x))
        } else {
            total(sems(ms, x))
        }) by {
            assert(sems(ms, x).take(i as int) =~= sems(ms, x));
        }
    }
    Ok(Some(Value::Num(acc)))
}

fn eval_two(
    a: &FExpr,
    b: &FExpr,
    cur: &Vec<Option<Value>>,
    next: &Vec<Option<Value>>,
    Ghost(e): Ghost<FExpr>,
) -> (r: Result<Option<(Value, Value)>, EngineError>)
    requires
        decreases_to!(e => *a),
        decreases_to!(e => *b),
    ensures
        match r {
            Ok(Some((x, y))) => partly(a.model(), slots(cur@), slots(next@), Some(x.model())) && partly(
                b.model(),
                slots(cur@),
                slots(next@),
                Some(y.model()),
            ),
            Ok(None) => !settled(a.model(), slots(cur@), slots(next@)) || !settled(
                b.model(),
                slots(cur@),
                slots(next@),
            ),
            Err(x) => x is Eval,
        },
        forall|ts: Seq<LT>, primed: bool| #[trigger]
            prepared(ts, slots(cur@), slots(next@), primed) && clean(a.model(), ts, primed) is Some && clean(
                b.model(),
                ts,
                primed,
            ) is Some ==> match r {
                Ok(Some((x, y))) => kind_has(clean(a.model(), ts, primed)->0, x.model()) && kind_has(
                    clean(b.model(), ts, primed)->0,
                    y.model(),
                ),
                Ok(None) => true,
                Err(_) => false,
            },
    decreases e, 0nat,
{
    let x = match peval(a, cur, next) {
        Ok(v) => v,
        Err(x) => {
            return Err(x);
        },
    };
    let y = match peval(b, cur, next) {
        Ok(v) => v,
        Err(x) => {
            return Err(x);
        },
    };
    match (x, y) {
        (Some(p), Some(q)) => Ok(Some((p, q))),
        _ => Ok(None),
    }
}

fn eval_numbers(
    a: &FExpr,
    b: &FExpr,
    how: Arith,
    cur: &Vec<Option<Value>>,
    next: &Vec<Option<Value>>,
    Ghost(e): Ghost<FExpr>,
) -> (r: Result<Option<Value>, EngineError>)
    requires
        decreases_to!(e => *a),
        decreases_to!(e => *b),
    ensures
        match r {
            Ok(Some(v)) => forall|x: Leaves| #[trigger]
                fits(slots(cur@), slots(next@), x) ==> crate::arith::arith_out(
                    how,
                    sem(a.model(), x),
                    sem(b.model(), x),
                ) == Some(v.model()),
            Ok(None) => !settled(a.model(), slots(cur@), slots(next@)) || !settled(
                b.model(),
                slots(cur@),
                slots(next@),
            ),
            Err(x) => x is Eval,
        },
        forall|ts: Seq<LT>, primed: bool| #[trigger]
            prepared(ts, slots(cur@), slots(next@), primed) && numeric(clean(a.model(), ts, primed)) && sure_divisor(
                b.model(),
                false,
            ) && how is Div ==> as_kind(r, Kind::N),
        forall|ts: Seq<LT>, primed: bool| #[trigger]
            prepared(ts, slots(cur@), slots(next@), primed) && clean(a.model(), ts, primed) == Some(Kind::W)
                && sure_divisor(b.model(), true) && (how is IDiv || how is Mod) ==> as_kind(r, Kind::W),
    decreases e, 1nat,
{
    let ghost x0 = |l: LeafId, p: bool|
        {
            let v = if p {
                slots(next@)
            } else {
                slots(cur@)
            };
            if (l as int) < v.len() {
                v[l as int]
            } else {
                None
            }
        };
    assert(fits(slots(cur@), slots(next@), x0));
    match eval_two(a, b, cur, next, Ghost(e)) {
        Err(x) => Err(x),
        Ok(None) => Ok(None),
        Ok(Some((Value::Num(x), Value::Num(y)))) => match compute(how, &x, &y) {
            Some(z) => Ok(Some(Value::Num(z))),
            None => Err(bad("Division by zero.")),
        },
        Ok(Some(_)) => Err(bad("number expected")),
    }
}

/// The value of an expression, where it is settled by the leaves that are known.
pub fn peval(e: &FExpr, cur: &Vec<Option<Value>>, next: &Vec<Option<Value>>) -> (r: Result<Option<Value>, EngineError>)
    ensures
        match r {
            Ok(v) => partly(e.model(), slots(cur@), slots(next@), slot(v)),
            Err(x) => x is Eval,
        },
        forall|ts: Seq<LT>, primed: bool| #[trigger]
            prepared(ts, slots(cur@), slots(next@), primed) && clean(e.model(), ts, primed) is Some ==> as_kind(
                r,
                clean(e.model(), ts, primed)->0,
            ),
    decreases e, 2nat,
{
    let ghost c = slots(cur@);
    let ghost n = slots(next@);
    match e {
        FExpr::Const(v) => Ok(Some(v.clone())),
        FExpr::Var(l, p) => {
            let i: usize = *l as usize;
            if *p {
                if i < next.len() {
                    assert(n[i as int] == slot(next@[i as int]));
                    Ok(clone_slot(&next[i]))
                } else {
                    Err(bad("unknown state variable"))
                }
            } else {
                if i < cur.len() {
                    assert(c[i as int] == slot(cur@[i as int]));
                    Ok(clone_slot(&cur[i]))
                } else {
                    Err(bad("unknown state variable"))
                }
            }
        },
        FExpr::Not(a) => match peval(a, cur, next) {
            Err(x) => Err(x),
            Ok(Some(Value::Bool(b))) => Ok(Some(Value::Bool(!b))),
            Ok(Some(_)) => Err(bad("boolean expected")),
            Ok(None) => Ok(None),
        },
        FExpr::And(es) => eval_junction(es, true, cur, next),
        FExpr::Or(es) => eval_junction(es, false, cur, next),
        FExpr::Ite(k, t, f) => match peval(k, cur, next) {
            Err(x) => Err(x),
            Ok(Some(Value::Bool(b))) => {
                let r = if b {
                    peval(t, cur, next)
                } else {
                    peval(f, cur, next)
                };
                proof {
                    assert forall|x: Leaves| #[trigger] fits(c, n, x) implies sem(k.model(), x) == truth(b) by {}
                }
                r
            },
            Ok(Some(_)) => Err(bad("boolean expected")),
            Ok(None) => match eval_two(t, f, cur, next, Ghost(*e)) {
                Err(x) => Err(x),
                Ok(None) => Ok(None),
                Ok(Some((x, y))) => if x.same(&y) {
                    Ok(Some(x))
                } else {
                    Ok(None)
                },
            },
        },
        FExpr::Eq(a, b) => match eval_two(a, b, cur, next, Ghost(*e)) {
            Err(x) => Err(x),
            Ok(None) => Ok(None),
            Ok(Some((x, y))) => Ok(Some(Value::Bool(x.same(&y)))),
        },
        FExpr::Lt(a, b) => match eval_two(a, b, cur, next, Ghost(*e)) {
            Err(x) => Err(x),
            Ok(None) => Ok(None),
            Ok(Some((Value::Num(x), Value::Num(y)))) => Ok(Some(Value::Bool(x.less(&y)))),
            Ok(Some(_)) => Err(bad("number expected")),
        },
        FExpr::Le(a, b) => match eval_two(a, b, cur, next, Ghost(*e)) {
            Err(x) => Err(x),
            Ok(None) => Ok(None),
            Ok(Some((Value::Num(x), Value::Num(y)))) => Ok(Some(Value::Bool(x.at_most(&y)))),
            Ok(Some(_)) => Err(bad("number expected")),
        },
        FExpr::Add(es) => eval_fold(es, false, cur, next),
        FExpr::Mul(es) => eval_fold(es, true, cur, next),
        FExpr::Neg(a) => match peval(a, cur, next) {
            Err(x) => Err(x),
            Ok(Some(Value::Num(q))) => Ok(Some(Value::Num(q.negated()))),
            Ok(Some(_)) => Err(bad("number expected")),
            Ok(None) => Ok(None),
        },
        FExpr::Div(a, b) => eval_numbers(a, b, Arith::Div, cur, next, Ghost(*e)),
        FExpr::IDiv(a, b) => eval_numbers(a, b, Arith::IDiv, cur, next, Ghost(*e)),
        FExpr::Mod(a, b) => eval_numbers(a, b, Arith::Mod, cur, next, Ghost(*e)),
    }
}

/// Whether a value is one of a finite leaf type.
pub fn member(t: &LeafType, v: &Value) -> (r: bool)
    ensures
        r == (leaf_values(t@) is Some && leaf_values(t@)->0.contains(v.model())),
{
    let ghost vs = leaf_values(t@)->0;
    match (t, v) {
        (LeafType::Bool, Value::Bool(b)) => {
            proof {
                let i = if *b {
                    1int
                } else {
                    0int
                };
                assert(vs[i] == v.model());
            }
            true
        },
        (LeafType::Range(lo, hi), Value::Num(q)) => {
            if !q.is_integer() {
                proof {
                    if vs.contains(v.model()) {
                        let i = choose|i: int| 0 <= i < vs.len() && vs[i] == v.model();
                        assert(vs[i] == Val::Num(Q::whole(lo@ + i)));
                    }
                }
                return false;
            }
            let n = q.numer();
            let r = !n.less(lo) && !hi.less(n);
            proof {
                assert(q@ == Q::whole(n@));
                if r {
                    assert(vs[n@ - lo@] == v.model());
                }
                if vs.contains(v.model()) {
                    let i = choose|i: int| 0 <= i < vs.len() && vs[i] == v.model();
                    assert(vs[i] == Val::Num(Q::whole(lo@ + i)));
                }
            }
            r
        },
        (LeafType::Scalar(id, es), Value::Scalar(t2, i)) => {
            let r = id.same(t2) && *i < es.len();
            proof {
                assert(crate::text::views(es@).len() == es@.len());
                if r {
                    assert(vs[*i as int] == v.model());
                }
                if vs.contains(v.model()) {
                    let k = choose|k: int| 0 <= k < vs.len() && vs[k] == v.model();
                    assert(vs[k] == Val::Scalar(id@, k as nat));
                }
            }
            r
        },
        _ => {
            proof {
                if leaf_values(t@) is Some && vs.contains(v.model()) {
                    let i = choose|i: int| 0 <= i < vs.len() && vs[i] == v.model();
                    assert(vs[i] == leaf_value(t@, i));
                }
            }
            false
        },
    }
}

} // verus!
