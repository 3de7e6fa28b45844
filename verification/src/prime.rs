//! Turning conditions on the current state into conditions on the next.

use crate::fexpr::{all_true, fe_models, sem, sems, unprimed, unprimeds, FExpr, LeafId, Leaves, FE};
use vstd::prelude::*;

verus! {

/// The expression with every leaf read in the next state.
pub open spec fn primed(e: FE) -> FE
    decreases e,
{
    match e {
        FE::Const(v) => FE::Const(v),
        FE::Var(l, _) => FE::Var(l, true),
        FE::Ite(c, t, f) => FE::Ite(Box::new(primed(*c)), Box::new(primed(*t)), Box::new(primed(*f))),
        FE::Not(a) => FE::Not(Box::new(primed(*a))),
        FE::Neg(a) => FE::Neg(Box::new(primed(*a))),
        FE::Eq(a, b) => FE::Eq(Box::new(primed(*a)), Box::new(primed(*b))),
        FE::Lt(a, b) => FE::Lt(Box::new(primed(*a)), Box::new(primed(*b))),
        FE::Le(a, b) => FE::Le(Box::new(primed(*a)), Box::new(primed(*b))),
        FE::Div(a, b) => FE::Div(Box::new(primed(*a)), Box::new(primed(*b))),
        FE::IDiv(a, b) => FE::IDiv(Box::new(primed(*a)), Box::new(primed(*b))),
        FE::Mod(a, b) => FE::Mod(Box::new(primed(*a)), Box::new(primed(*b))),
        FE::And(es) => FE::And(primeds(es)),
        FE::Or(es) => FE::Or(primeds(es)),
        FE::Add(es) => FE::Add(primeds(es)),
        FE::Mul(es) => FE::Mul(primeds(es)),
    }
}

/// The expressions with every leaf read in the next state.
pub open spec fn primeds(es: Seq<FE>) -> Seq<FE>
    decreases es,
{
    Seq::new(
        es.len(),
        |i: int|
            if 0 <= i < es.len() {
                primed(es[i])
            } else {
                arbitrary()
            },
    )
}

/// The expressions with every leaf read in the next state.
pub fn prime_all(es: &Vec<FExpr>) -> (r: Vec<FExpr>)
    ensures
        fe_models(r@) == primeds(fe_models(es@)),
    decreases es,
{
    let mut out: Vec<FExpr> = Vec::new();
    let mut i: usize = 0;
    while i < es.len()
        invariant
            i <= es@.len(),
            out@.len() == i,
            forall|k: int| 0 <= k < i ==> (#[trigger] out@[k]).model() == primed(es@[k].model()),
        decreases es.len() - i,
    {
        out.push(prime(&es[i]));
        i += 1;
    }
    assert(fe_models(out@) =~= primeds(fe_models(es@)));
    out
}

/// The expression with every leaf read in the next state.
pub fn prime(e: &FExpr) -> (r: FExpr)
    ensures
        r.model() == primed(e.model()),
    decreases e,
{
    match e {
        FExpr::Const(v) => FExpr::Const(v.clone()),
        FExpr::Var(l, _) => FExpr::Var(*l, true),
        FExpr::Ite(c, t, f) => FExpr::Ite(Box::new(prime(c)), Box::new(prime(t)), Box::new(prime(f))),
        FExpr::Not(a) => FExpr::Not(Box::new(prime(a))),
        FExpr::Neg(a) => FExpr::Neg(Box::new(prime(a))),
        FExpr::Eq(a, b) => FExpr::Eq(Box::new(prime(a)), Box::new(prime(b))),
        FExpr::Lt(a, b) => FExpr::Lt(Box::new(prime(a)), Box::new(prime(b))),
        FExpr::Le(a, b) => FExpr::Le(Box::new(prime(a)), Box::new(prime(b))),
        FExpr::Div(a, b) => FExpr::Div(Box::new(prime(a)), Box::new(prime(b))),
        FExpr::IDiv(a, b) => FExpr::IDiv(Box::new(prime(a)), Box::new(prime(b))),
        FExpr::Mod(a, b) => FExpr::Mod(Box::new(prime(a)), Box::new(prime(b))),
        FExpr::And(es) => FExpr::And(prime_all(es)),
        FExpr::Or(es) => FExpr::Or(prime_all(es)),
        FExpr::Add(es) => FExpr::Add(prime_all(es)),
        FExpr::Mul(es) => FExpr::Mul(prime_all(es)),
    }
}

/// What a condition on the current state says, its primed form says of the next.
pub proof fn primed_meaning(e: FE, x: Leaves, y: Leaves)
    requires
        unprimed(e),
        forall|l: LeafId| #[trigger] x(l, true) == y(l, false),
    ensures
        sem(primed(e), x) == sem(e, y),
    decreases e,
{
    match e {
        FE::Const(_) => {},
        FE::Var(l, p) => {
            assert(x(l, true) == y(l, false));
        },
        FE::Ite(c, t, f) => {
            primed_meaning(*c, x, y);
            primed_meaning(*t, x, y);
            primed_meaning(*f, x, y);
        },
        FE::Not(a) => {
            primed_meaning(*a, x, y);
        },
        FE::Neg(a) => {
            primed_meaning(*a, x, y);
        },
        FE::Eq(a, b) => {
            primed_meaning(*a, x, y);
            primed_meaning(*b, x, y);
        },
        FE::Lt(a, b) => {
            primed_meaning(*a, x, y);
            primed_meaning(*b, x, y);
        },
        FE::Le(a, b) => {
            primed_meaning(*a, x, y);
            primed_meaning(*b, x, y);
        },
        FE::Div(a, b) => {
            primed_meaning(*a, x, y);
            primed_meaning(*b, x, y);
        },
        FE::IDiv(a, b) => {
            primed_meaning(*a, x, y);
            primed_meaning(*b, x, y);
        },
        FE::Mod(a, b) => {
            primed_meaning(*a, x, y);
            primed_meaning(*b, x, y);
        },
        FE::And(es) => {
            primeds_meaning(es, x, y);
        },
        FE::Or(es) => {
            primeds_meaning(es, x, y);
        },
        FE::Add(es) => {
            primeds_meaning(es, x, y);
        },
        FE::Mul(es) => {
            primeds_meaning(es, x, y);
        },
    }
}

/// What conditions on the current state say, their primed forms say of the next.
pub proof fn primeds_meaning(es: Seq<FE>, x: Leaves, y: Leaves)
    requires
        all_true(unprimeds(es)),
        forall|l: LeafId| #[trigger] x(l, true) == y(l, false),
    ensures
        sems(primeds(es), x) == sems(es, y),
    decreases es,
{
    assert forall|i: int| 0 <= i < es.len() implies #[trigger] sems(primeds(es), x)[i] == sems(es, y)[i] by {
        assert(unprimeds(es)[i] == unprimed(es[i]));
        assert(primeds(es)[i] == primed(es[i]));
        primed_meaning(es[i], x, y);
    }
    assert(sems(primeds(es), x) =~= sems(es, y));
}

} // verus!
