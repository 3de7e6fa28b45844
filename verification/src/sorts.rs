//! Checking that expressions are well-typed.

use crate::fexpr::{all_sort, fe_models, is_condition, only_if, typed, typeds, FExpr, LeafInfo, LeafType, Sort, FE};
use crate::flat::leaf_types;
use crate::ltl::{nn_atoms, Ltl};
use crate::value::Value;
use vstd::prelude::*;

verus! {

fn all_of(es: &Vec<FExpr>, leaves: &Vec<LeafInfo>, s: Sort) -> (r: bool)
    ensures
        r == all_sort(typeds(fe_models(es@), leaf_types(leaves@)), s),
    decreases es,
{
    let ghost ts = typeds(fe_models(es@), leaf_types(leaves@));
    let mut i: usize = 0;
    while i < es.len()
        invariant
            i <= es@.len(),
            ts == typeds(fe_models(es@), leaf_types(leaves@)),
            forall|k: int| 0 <= k < i ==> #[trigger] ts[k] == Some(s),
        decreases es.len() - i,
    {
        proof {
            assert(ts[i as int] == typed(es@[i as int].model(), leaf_types(leaves@)));
        }
        if !is_sort(&es[i], leaves, s) {
            return false;
        }
        i += 1;
    }
    true
}

fn is_sort(e: &FExpr, leaves: &Vec<LeafInfo>, s: Sort) -> (r: bool)
    ensures
        r == (typed(e.model(), leaf_types(leaves@)) == Some(s)),
    decreases e, 3nat,
{
    match sort_of(e, leaves) {
        Some(x) => x == s,
        None => false,
    }
}

fn both_sort(a: &FExpr, b: &FExpr, leaves: &Vec<LeafInfo>, s: Sort, Ghost(e): Ghost<FExpr>) -> (r: bool)
    requires
        decreases_to!(e => *a),
        decreases_to!(e => *b),
    ensures
        r == (typed(a.model(), leaf_types(leaves@)) == Some(s) && typed(b.model(), leaf_types(leaves@)) == Some(s)),
    decreases e, 1nat,
{
    is_sort(a, leaves, s) && is_sort(b, leaves, s)
}

fn one(b: bool, s: Sort) -> (r: Option<Sort>)
    ensures
        r == only_if(b, s),
{
    if b {
        Some(s)
    } else {
        None
    }
}

/// The kind of an expression, if it is well-typed.
pub fn sort_of(e: &FExpr, leaves: &Vec<LeafInfo>) -> (r: Option<Sort>)
    ensures
        r == typed(e.model(), leaf_types(leaves@)),
    decreases e, 2nat,
{
    match e {
        FExpr::Const(v) => match v {
            Value::Bool(_) => Some(Sort::B),
            Value::Num(_) => Some(Sort::N),
            _ => Some(Sort::O),
        },
        FExpr::Var(l, _) => {
            if (*l as usize) < leaves.len() {
                assert(leaf_types(leaves@)[*l as int] == leaves@[*l as int].ty@);
                match &leaves[*l as usize].ty {
                    LeafType::Bool => Some(Sort::B),
                    LeafType::Scalar(_, _) => Some(Sort::O),
                    _ => Some(Sort::N),
                }
            } else {
                None
            }
        },
        FExpr::Not(a) => one(is_sort(a, leaves, Sort::B), Sort::B),
        FExpr::And(es) => one(all_of(es, leaves, Sort::B), Sort::B),
        FExpr::Or(es) => one(all_of(es, leaves, Sort::B), Sort::B),
        FExpr::Ite(c, t, f) => {
            let x = sort_of(t, leaves);
            let y = sort_of(f, leaves);
            if is_sort(c, leaves, Sort::B) && x == y {
                x
            } else {
                None
            }
        },
        FExpr::Eq(a, b) => one(sort_of(a, leaves).is_some() && sort_of(b, leaves).is_some(), Sort::B),
        FExpr::Lt(a, b) => one(both_sort(a, b, leaves, Sort::N, Ghost(*e)), Sort::B),
        FExpr::Le(a, b) => one(both_sort(a, b, leaves, Sort::N, Ghost(*e)), Sort::B),
        FExpr::Add(es) => one(all_of(es, leaves, Sort::N), Sort::N),
        FExpr::Mul(es) => one(all_of(es, leaves, Sort::N), Sort::N),
        FExpr::Neg(a) => one(is_sort(a, leaves, Sort::N), Sort::N),
        FExpr::Div(a, b) => one(both_sort(a, b, leaves, Sort::N, Ghost(*e)), Sort::N),
        FExpr::IDiv(a, b) => one(both_sort(a, b, leaves, Sort::N, Ghost(*e)), Sort::N),
        FExpr::Mod(a, b) => one(both_sort(a, b, leaves, Sort::N, Ghost(*e)), Sort::N),
    }
}

/// Whether all atoms of a formula are well-typed conditions.
pub fn atoms_ok(f: &Ltl, leaves: &Vec<LeafInfo>) -> (r: bool)
    ensures
        r == nn_atoms(f.model(), |e: FE| is_condition(e, leaf_types(leaves@))),
    decreases f,
{
    match f {
        Ltl::True => true,
        Ltl::False => true,
        Ltl::Atom(e) => is_sort(e, leaves, Sort::B),
        Ltl::NAtom(e) => is_sort(e, leaves, Sort::B),
        Ltl::And(a, b) => atoms_ok(a, leaves) && atoms_ok(b, leaves),
        Ltl::Or(a, b) => atoms_ok(a, leaves) && atoms_ok(b, leaves),
        Ltl::X(a) => atoms_ok(a, leaves),
        Ltl::U(a, b) => atoms_ok(a, leaves) && atoms_ok(b, leaves),
        Ltl::R(a, b) => atoms_ok(a, leaves) && atoms_ok(b, leaves),
    }
}

} // verus!
