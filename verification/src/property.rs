//! Which check a property asks for.

use crate::explicit::{shortest, EngineError};
use crate::fexpr::{is_condition, unprimed, FExpr, FE};
use crate::flat::{holds_in, State, Sys};
use crate::formula::{has_branching, has_linear, TFormula, TF};
use crate::ltl::tf_sat;
use crate::symbolic::{refutes, states_of, width_of, word_of, Symbolic};
use crate::temporal::{all_atoms, atoms_plain, atoms_typed, ctl, endless_run, Trace};
use crate::value::Value;
use vstd::prelude::*;

verus! {

/// The condition that a formula asks of every reachable state, if it asks only this.
pub open spec fn always(f: TF) -> Option<FE> {
    match f {
        TF::G(a) => match *a {
            TF::Atom(e) => Some(e),
            _ => None,
        },
        TF::AG(a) => match *a {
            TF::Atom(e) => Some(e),
            _ => None,
        },
        _ => None,
    }
}

/// The condition of a property that is one: of an invariant, or a plain condition.
pub open spec fn condition_of(f: TF) -> Option<FE> {
    match f {
        TF::Atom(e) => Some(e),
        _ => always(f),
    }
}

/// The condition of an invariant property, as induction and lemmas take it.
pub fn invariant_of(f: &TFormula) -> (r: Option<FExpr>)
    ensures
        match r {
            Some(e) => condition_of(f.model()) == Some(e.model()),
            None => condition_of(f.model()) is None,
        },
{
    match f {
        TFormula::Atom(e) => Some(e.clone()),
        TFormula::G(a) | TFormula::AG(a) => match a.as_atom() {
            Some(e) => Some(e.clone()),
            None => None,
        },
        _ => None,
    }
}

/// The result of a check: a counterexample, if there is one.
pub type Checked = Result<Option<Vec<Vec<Value>>>, EngineError>;

/// The condition holds in every initial state, or the result is one in which it does not.
pub open spec fn holds_first(sys: Sys, e: FE, r: Checked) -> bool {
    match r {
        Ok(None) => forall|s: State| #[trigger] sys.initial(s) ==> holds_in(e, s),
        Ok(Some(v)) => v@.len() == 1 && sys.initial(states_of(v@)[0]) && !holds_in(e, states_of(v@)[0]),
        Err(x) => x is Eval && !is_condition(e, sys.leaves),
    }
}

/// The condition holds in every reachable state, or the result is a shortest run to one in which it does not.
pub open spec fn holds_always(sys: Sys, e: FE, r: Checked) -> bool {
    match r {
        Ok(None) => forall|s: State| #[trigger] sys.reachable(s) ==> holds_in(e, s),
        Ok(Some(p)) => shortest(sys, states_of(p@), |s: State| !holds_in(e, s)),
        Err(x) => x is Eval && !is_condition(e, sys.leaves),
    }
}

/// The branching-time formula holds in every initial state, or the result is one in which it does not.
pub open spec fn holds_branching(sys: Sys, f: TF, r: Checked) -> bool {
    &&& !has_linear(f)
    &&& match r {
        Ok(None) => forall|s: State| #[trigger] sys.initial(s) ==> ctl(sys, f)(s),
        Ok(Some(v)) => v@.len() == 1 && sys.initial(states_of(v@)[0]) && !ctl(sys, f)(states_of(v@)[0]),
        Err(_) => false,
    }
}

/// The linear-time formula holds in every endless run, or the result is the beginning of one in which it does not.
pub open spec fn holds_linear(sys: Sys, f: TF, r: Checked) -> bool {
    match r {
        Ok(None) => !has_branching(f) && forall|tr: Trace| #[trigger]
            endless_run(sys, tr) ==> tf_sat(f, word_of(tr))(0),
        Ok(Some(p)) => !has_branching(f) && refutes(sys, f, states_of(p@)),
        Err(EngineError::Eval(_)) => has_branching(f) || !atoms_typed(f, sys.leaves),
        Err(EngineError::TooLarge(_)) => width_of(sys.leaves, sys.leaves.len()) + 128 >= crate::bdd::VAR_LIMIT,
        Err(EngineError::InfiniteType(_)) => false,
    }
}

/// Checks a property: a plain condition in the initial states, an invariant in the reachable ones, and another formula
/// as a branching-time one, or where it is none, as a linear-time one.
pub fn check(engine: &mut Symbolic, f: &TFormula) -> (r: Checked)
    requires
        old(engine).wf(),
        atoms_plain(f.model()),
    ensures
        final(engine).wf(),
        final(engine).sys() == old(engine).sys(),
        match (f.model(), always(f.model())) {
            (TF::Atom(e), _) => holds_first(old(engine).sys(), e, r),
            (_, Some(e)) => holds_always(old(engine).sys(), e, r),
            _ => {
                let sys = old(engine).sys();
                &&& holds_branching(sys, f.model(), r) || holds_linear(sys, f.model(), r)
                &&& has_linear(f.model()) ==> holds_linear(sys, f.model(), r)
                &&& !has_linear(f.model()) && atoms_typed(f.model(), sys.leaves) ==> holds_branching(sys, f.model(), r)
            },
        },
{
    match f {
        TFormula::Atom(e) => {
            return engine.check_initial(e);
        },
        TFormula::G(a) | TFormula::AG(a) => {
            if let Some(e) = a.as_atom() {
                proof {
                    reveal_with_fuel(all_atoms, 2);
                    let p = |e: FE| unprimed(e);
                    assert(all_atoms(a.model(), p));
                    assert(p(e.model()));
                }
                return engine.check_invariant(e);
            }
        },
        _ => {},
    }
    match engine.check_ctl(f) {
        Err(_) => engine.check_ltl(f),
        found => found,
    }
}

} // verus!
