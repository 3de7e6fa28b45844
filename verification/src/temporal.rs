//! What temporal formulas mean.

use crate::fexpr::{holds, is_condition, unprimed, FE, LT};
use crate::flat::{holds_in, is_unprimed, State, Sys};
use crate::formula::{TFormula, TF};
use vstd::prelude::*;

verus! {

/// A set of states.
pub type SP = spec_fn(State) -> bool;

/// An endless sequence of states.
pub type Trace = spec_fn(nat) -> State;

/// Some step leads into `p`.
pub open spec fn sp_ex(sys: Sys, p: SP, s: State) -> bool {
    exists|t: State| #[trigger] sys.step(s, t) && p(t)
}

/// The states from which `q` is reached in exactly `k` steps through states of `p`.
pub open spec fn sp_until_set(sys: Sys, p: SP, q: SP, k: nat) -> SP
    decreases k,
{
    if k == 0 {
        q
    } else {
        let h = sp_until_set(sys, p, q, (k - 1) as nat);
        |s: State| p(s) && sp_ex(sys, h, s)
    }
}

/// From `s`, `q` is reached in exactly `k` steps through states of `p`.
pub open spec fn sp_until(sys: Sys, p: SP, q: SP, k: nat, s: State) -> bool {
    (sp_until_set(sys, p, q, k))(s)
}

/// From `s`, `q` is reached through states of `p`.
pub open spec fn sp_eu(sys: Sys, p: SP, q: SP, s: State) -> bool {
    exists|k: nat| #[trigger] sp_until(sys, p, q, k, s)
}

/// The states are all in `p`, and each leads to the next.
pub open spec fn sp_endless(sys: Sys, p: SP, path: Trace) -> bool {
    &&& forall|i: nat| p(#[trigger] path(i))
    &&& forall|i: nat| #[trigger] sp_hops(sys, path, i)
}

/// The sequence makes a step after `i`.
pub open spec fn sp_hops(sys: Sys, path: Trace, i: nat) -> bool {
    sys.step(path(i), path((i + 1) as nat))
}

/// Some endless path through `p` starts at `s`.
pub open spec fn sp_eg(sys: Sys, p: SP, s: State) -> bool {
    exists|path: Trace| #[trigger] sp_endless(sys, p, path) && path(0) == s
}

/// An endless run of the system.
pub open spec fn endless_run(sys: Sys, tr: Trace) -> bool {
    &&& sys.initial(tr(0))
    &&& forall|i: nat| #[trigger] sp_hops(sys, tr, i)
}

/// All states.
pub open spec fn sp_all() -> SP {
    |s: State| true
}

/// The complement.
pub open spec fn sp_not(p: SP) -> SP {
    |s: State| !p(s)
}

/// The intersection.
pub open spec fn sp_and(p: SP, q: SP) -> SP {
    |s: State| p(s) && q(s)
}

/// The union.
pub open spec fn sp_or(p: SP, q: SP) -> SP {
    |s: State| p(s) || q(s)
}

/// On every path `q` is reached through states of `p`: no path leaves `p` before `q`, and none
/// avoids `q` for ever.
pub open spec fn sp_au(sys: Sys, p: SP, q: SP, s: State) -> bool {
    !sp_eu(sys, sp_not(q), sp_and(sp_not(p), sp_not(q)), s) && !sp_eg(sys, sp_not(q), s)
}

/// The states in which a branching-time formula holds.
pub open spec fn ctl(sys: Sys, f: TF) -> SP
    decreases f,
{
    match f {
        TF::Atom(e) => |s: State| holds_in(e, s),
        TF::Not(a) => sp_not(ctl(sys, *a)),
        TF::And(a, b) => sp_and(ctl(sys, *a), ctl(sys, *b)),
        TF::Or(a, b) => sp_or(ctl(sys, *a), ctl(sys, *b)),
        TF::EX(a) => {
            let p = ctl(sys, *a);
            |s: State| sp_ex(sys, p, s)
        },
        TF::AX(a) => {
            let p = ctl(sys, *a);
            |s: State| !sp_ex(sys, sp_not(p), s)
        },
        TF::EG(a) => {
            let p = ctl(sys, *a);
            |s: State| sp_eg(sys, p, s)
        },
        TF::AG(a) => {
            let p = ctl(sys, *a);
            |s: State| !sp_eu(sys, sp_all(), sp_not(p), s)
        },
        TF::EF(a) => {
            let p = ctl(sys, *a);
            |s: State| sp_eu(sys, sp_all(), p, s)
        },
        TF::AF(a) => {
            let p = ctl(sys, *a);
            |s: State| !sp_eg(sys, sp_not(p), s)
        },
        TF::EU(a, b) => {
            let p = ctl(sys, *a);
            let q = ctl(sys, *b);
            |s: State| sp_eu(sys, p, q, s)
        },
        TF::AU(a, b) => {
            let p = ctl(sys, *a);
            let q = ctl(sys, *b);
            |s: State| sp_au(sys, p, q, s)
        },
        TF::ER(a, b) => {
            let p = ctl(sys, *a);
            let q = ctl(sys, *b);
            |s: State| !sp_au(sys, sp_not(p), sp_not(q), s)
        },
        TF::AR(a, b) => {
            let p = ctl(sys, *a);
            let q = ctl(sys, *b);
            |s: State| !sp_eu(sys, sp_not(p), sp_not(q), s)
        },
        _ => sp_not(sp_all()),
    }
}

/// A property of every atom of a formula.
pub open spec fn all_atoms(f: TF, p: spec_fn(FE) -> bool) -> bool
    decreases f,
{
    match f {
        TF::Atom(e) => p(e),
        TF::Not(a) => all_atoms(*a, p),
        TF::And(a, b) => all_atoms(*a, p) && all_atoms(*b, p),
        TF::Or(a, b) => all_atoms(*a, p) && all_atoms(*b, p),
        TF::X(a) => all_atoms(*a, p),
        TF::G(a) => all_atoms(*a, p),
        TF::F(a) => all_atoms(*a, p),
        TF::U(a, b) => all_atoms(*a, p) && all_atoms(*b, p),
        TF::W(a, b) => all_atoms(*a, p) && all_atoms(*b, p),
        TF::R(a, b) => all_atoms(*a, p) && all_atoms(*b, p),
        TF::M(a, b) => all_atoms(*a, p) && all_atoms(*b, p),
        TF::EX(a) => all_atoms(*a, p),
        TF::AX(a) => all_atoms(*a, p),
        TF::EG(a) => all_atoms(*a, p),
        TF::AG(a) => all_atoms(*a, p),
        TF::EF(a) => all_atoms(*a, p),
        TF::AF(a) => all_atoms(*a, p),
        TF::EU(a, b) => all_atoms(*a, p) && all_atoms(*b, p),
        TF::AU(a, b) => all_atoms(*a, p) && all_atoms(*b, p),
        TF::ER(a, b) => all_atoms(*a, p) && all_atoms(*b, p),
        TF::AR(a, b) => all_atoms(*a, p) && all_atoms(*b, p),
    }
}

/// The atoms speak of the current state only.
pub open spec fn atoms_plain(f: TF) -> bool {
    all_atoms(f, |e: FE| unprimed(e))
}

/// Whether the atoms speak of the current state only.
pub fn has_plain_atoms(f: &TFormula) -> (r: bool)
    ensures
        r == atoms_plain(f.model()),
    decreases f,
{
    match f {
        TFormula::Atom(e) => is_unprimed(e),
        TFormula::Not(a) => has_plain_atoms(a),
        TFormula::X(a) => has_plain_atoms(a),
        TFormula::G(a) => has_plain_atoms(a),
        TFormula::F(a) => has_plain_atoms(a),
        TFormula::EX(a) => has_plain_atoms(a),
        TFormula::AX(a) => has_plain_atoms(a),
        TFormula::EG(a) => has_plain_atoms(a),
        TFormula::AG(a) => has_plain_atoms(a),
        TFormula::EF(a) => has_plain_atoms(a),
        TFormula::AF(a) => has_plain_atoms(a),
        TFormula::And(a, b) => has_plain_atoms(a) && has_plain_atoms(b),
        TFormula::Or(a, b) => has_plain_atoms(a) && has_plain_atoms(b),
        TFormula::U(a, b) => has_plain_atoms(a) && has_plain_atoms(b),
        TFormula::W(a, b) => has_plain_atoms(a) && has_plain_atoms(b),
        TFormula::R(a, b) => has_plain_atoms(a) && has_plain_atoms(b),
        TFormula::M(a, b) => has_plain_atoms(a) && has_plain_atoms(b),
        TFormula::EU(a, b) => has_plain_atoms(a) && has_plain_atoms(b),
        TFormula::AU(a, b) => has_plain_atoms(a) && has_plain_atoms(b),
        TFormula::ER(a, b) => has_plain_atoms(a) && has_plain_atoms(b),
        TFormula::AR(a, b) => has_plain_atoms(a) && has_plain_atoms(b),
    }
}

/// The atoms are well-typed conditions.
pub open spec fn atoms_typed(f: TF, leaves: Seq<LT>) -> bool {
    all_atoms(f, |e: FE| is_condition(e, leaves))
}

} // verus!
