//! Temporal formulas over flat expressions.

use crate::fexpr::{fe_and, fe_models, fe_not, fe_or, FExpr, FE};
use vstd::prelude::*;

verus! {

/// A linear-time (`X` to `M`) or branching-time (`EX` to `AR`) formula.
#[derive(Debug)]
pub enum TFormula {
    Atom(FExpr),
    Not(Box<TFormula>),
    And(Box<TFormula>, Box<TFormula>),
    Or(Box<TFormula>, Box<TFormula>),
    X(Box<TFormula>),
    G(Box<TFormula>),
    F(Box<TFormula>),
    U(Box<TFormula>, Box<TFormula>),
    W(Box<TFormula>, Box<TFormula>),
    R(Box<TFormula>, Box<TFormula>),
    /// Strong release: `p M q` is `q U (p AND q)`.
    M(Box<TFormula>, Box<TFormula>),
    EX(Box<TFormula>),
    AX(Box<TFormula>),
    EG(Box<TFormula>),
    AG(Box<TFormula>),
    EF(Box<TFormula>),
    AF(Box<TFormula>),
    EU(Box<TFormula>, Box<TFormula>),
    AU(Box<TFormula>, Box<TFormula>),
    ER(Box<TFormula>, Box<TFormula>),
    AR(Box<TFormula>, Box<TFormula>),
}

/// The mathematical content of a [`TFormula`].
pub ghost enum TF {
    Atom(FE),
    Not(Box<TF>),
    And(Box<TF>, Box<TF>),
    Or(Box<TF>, Box<TF>),
    X(Box<TF>),
    G(Box<TF>),
    F(Box<TF>),
    U(Box<TF>, Box<TF>),
    W(Box<TF>, Box<TF>),
    R(Box<TF>, Box<TF>),
    M(Box<TF>, Box<TF>),
    EX(Box<TF>),
    AX(Box<TF>),
    EG(Box<TF>),
    AG(Box<TF>),
    EF(Box<TF>),
    AF(Box<TF>),
    EU(Box<TF>, Box<TF>),
    AU(Box<TF>, Box<TF>),
    ER(Box<TF>, Box<TF>),
    AR(Box<TF>, Box<TF>),
}

impl TFormula {
    /// The content of the formula.
    pub open spec fn model(&self) -> TF
        decreases self,
    {
        match self {
            TFormula::Atom(e) => TF::Atom(e.model()),
            TFormula::Not(a) => TF::Not(Box::new(a.model())),
            TFormula::X(a) => TF::X(Box::new(a.model())),
            TFormula::G(a) => TF::G(Box::new(a.model())),
            TFormula::F(a) => TF::F(Box::new(a.model())),
            TFormula::EX(a) => TF::EX(Box::new(a.model())),
            TFormula::AX(a) => TF::AX(Box::new(a.model())),
            TFormula::EG(a) => TF::EG(Box::new(a.model())),
            TFormula::AG(a) => TF::AG(Box::new(a.model())),
            TFormula::EF(a) => TF::EF(Box::new(a.model())),
            TFormula::AF(a) => TF::AF(Box::new(a.model())),
            TFormula::And(a, b) => TF::And(Box::new(a.model()), Box::new(b.model())),
            TFormula::Or(a, b) => TF::Or(Box::new(a.model()), Box::new(b.model())),
            TFormula::U(a, b) => TF::U(Box::new(a.model()), Box::new(b.model())),
            TFormula::W(a, b) => TF::W(Box::new(a.model()), Box::new(b.model())),
            TFormula::R(a, b) => TF::R(Box::new(a.model()), Box::new(b.model())),
            TFormula::M(a, b) => TF::M(Box::new(a.model()), Box::new(b.model())),
            TFormula::EU(a, b) => TF::EU(Box::new(a.model()), Box::new(b.model())),
            TFormula::AU(a, b) => TF::AU(Box::new(a.model()), Box::new(b.model())),
            TFormula::ER(a, b) => TF::ER(Box::new(a.model()), Box::new(b.model())),
            TFormula::AR(a, b) => TF::AR(Box::new(a.model()), Box::new(b.model())),
        }
    }
}

impl Clone for TFormula {
    fn clone(&self) -> (r: TFormula)
        ensures
            r.model() == self.model(),
        decreases self, 0nat,
    {
        match self {
            TFormula::Atom(e) => TFormula::Atom(e.clone()),
            TFormula::Not(a) => TFormula::Not(dup(a)),
            TFormula::X(a) => TFormula::X(dup(a)),
            TFormula::G(a) => TFormula::G(dup(a)),
            TFormula::F(a) => TFormula::F(dup(a)),
            TFormula::EX(a) => TFormula::EX(dup(a)),
            TFormula::AX(a) => TFormula::AX(dup(a)),
            TFormula::EG(a) => TFormula::EG(dup(a)),
            TFormula::AG(a) => TFormula::AG(dup(a)),
            TFormula::EF(a) => TFormula::EF(dup(a)),
            TFormula::AF(a) => TFormula::AF(dup(a)),
            TFormula::And(a, b) => TFormula::And(dup(a), dup(b)),
            TFormula::Or(a, b) => TFormula::Or(dup(a), dup(b)),
            TFormula::U(a, b) => TFormula::U(dup(a), dup(b)),
            TFormula::W(a, b) => TFormula::W(dup(a), dup(b)),
            TFormula::R(a, b) => TFormula::R(dup(a), dup(b)),
            TFormula::M(a, b) => TFormula::M(dup(a), dup(b)),
            TFormula::EU(a, b) => TFormula::EU(dup(a), dup(b)),
            TFormula::AU(a, b) => TFormula::AU(dup(a), dup(b)),
            TFormula::ER(a, b) => TFormula::ER(dup(a), dup(b)),
            TFormula::AR(a, b) => TFormula::AR(dup(a), dup(b)),
        }
    }
}

fn dup(f: &Box<TFormula>) -> (r: Box<TFormula>)
    ensures
        r.model() == f.model(),
    decreases f, 1nat,
{
    Box::new((**f).clone())
}

/// The negation, without a double negation; of an atom it is an atom.
pub open spec fn tf_not(f: TF) -> TF {
    match f {
        TF::Atom(e) => TF::Atom(fe_not(e)),
        TF::Not(a) => *a,
        _ => TF::Not(Box::new(f)),
    }
}

/// The conjunction; of two atoms it is an atom.
pub open spec fn tf_and(a: TF, b: TF) -> TF {
    match (a, b) {
        (TF::Atom(x), TF::Atom(y)) => TF::Atom(fe_and(seq![x, y])),
        _ => TF::And(Box::new(a), Box::new(b)),
    }
}

/// The disjunction; of two atoms it is an atom.
pub open spec fn tf_or(a: TF, b: TF) -> TF {
    match (a, b) {
        (TF::Atom(x), TF::Atom(y)) => TF::Atom(fe_or(seq![x, y])),
        _ => TF::Or(Box::new(a), Box::new(b)),
    }
}

/// The conditional.
pub open spec fn tf_ite(c: TF, t: TF, e: TF) -> TF {
    tf_or(tf_and(c, t), tf_and(tf_not(c), e))
}

/// A branching-time operator occurs where it is reached from the root through connectives and
/// linear-time operators.
pub open spec fn has_branching(f: TF) -> bool
    decreases f,
{
    match f {
        TF::Atom(_) => false,
        TF::Not(a) => has_branching(*a),
        TF::X(a) => has_branching(*a),
        TF::G(a) => has_branching(*a),
        TF::F(a) => has_branching(*a),
        TF::And(a, b) => has_branching(*a) || has_branching(*b),
        TF::Or(a, b) => has_branching(*a) || has_branching(*b),
        TF::U(a, b) => has_branching(*a) || has_branching(*b),
        TF::W(a, b) => has_branching(*a) || has_branching(*b),
        TF::R(a, b) => has_branching(*a) || has_branching(*b),
        TF::M(a, b) => has_branching(*a) || has_branching(*b),
        _ => true,
    }
}

/// A linear-time operator occurs.
pub open spec fn has_linear(f: TF) -> bool
    decreases f,
{
    match f {
        TF::Atom(_) => false,
        TF::Not(a) => has_linear(*a),
        TF::EX(a) => has_linear(*a),
        TF::AX(a) => has_linear(*a),
        TF::EG(a) => has_linear(*a),
        TF::AG(a) => has_linear(*a),
        TF::EF(a) => has_linear(*a),
        TF::AF(a) => has_linear(*a),
        TF::And(a, b) => has_linear(*a) || has_linear(*b),
        TF::Or(a, b) => has_linear(*a) || has_linear(*b),
        TF::EU(a, b) => has_linear(*a) || has_linear(*b),
        TF::AU(a, b) => has_linear(*a) || has_linear(*b),
        TF::ER(a, b) => has_linear(*a) || has_linear(*b),
        TF::AR(a, b) => has_linear(*a) || has_linear(*b),
        _ => true,
    }
}

impl TFormula {
    /// The negation.
    pub fn not(f: TFormula) -> (r: TFormula)
        ensures
            r.model() == tf_not(f.model()),
    {
        match f {
            TFormula::Atom(e) => TFormula::Atom(FExpr::not(e)),
            TFormula::Not(inner) => *inner,
            other => TFormula::Not(Box::new(other)),
        }
    }

    /// The conjunction.
    pub fn and(a: TFormula, b: TFormula) -> (r: TFormula)
        ensures
            r.model() == tf_and(a.model(), b.model()),
    {
        match (a, b) {
            (TFormula::Atom(x), TFormula::Atom(y)) => {
                let es = vec![x, y];
                assert(fe_models(es@) =~= seq![x.model(), y.model()]);
                TFormula::Atom(FExpr::and(es))
            },
            (a, b) => TFormula::And(Box::new(a), Box::new(b)),
        }
    }

    /// The disjunction.
    pub fn or(a: TFormula, b: TFormula) -> (r: TFormula)
        ensures
            r.model() == tf_or(a.model(), b.model()),
    {
        match (a, b) {
            (TFormula::Atom(x), TFormula::Atom(y)) => {
                let es = vec![x, y];
                assert(fe_models(es@) =~= seq![x.model(), y.model()]);
                TFormula::Atom(FExpr::or(es))
            },
            (a, b) => TFormula::Or(Box::new(a), Box::new(b)),
        }
    }

    /// The conditional.
    pub fn ite(c: TFormula, t: TFormula, e: TFormula) -> (r: TFormula)
        ensures
            r.model() == tf_ite(c.model(), t.model(), e.model()),
    {
        let n = TFormula::not(c.clone());
        TFormula::or(TFormula::and(c, t), TFormula::and(n, e))
    }

    /// The expression, if the formula is an atom.
    pub fn as_atom(&self) -> (r: Option<&FExpr>)
        ensures
            match r {
                Some(e) => self.model() == TF::Atom(e.model()),
                None => !(self.model() is Atom),
            },
    {
        match self {
            TFormula::Atom(e) => Some(e),
            _ => None,
        }
    }

    /// Whether the formula has a branching-time operator below connectives and linear-time
    /// operators.
    pub fn is_ctl(&self) -> (r: bool)
        ensures
            r == has_branching(self.model()),
        decreases self,
    {
        match self {
            TFormula::Atom(_) => false,
            TFormula::Not(a) | TFormula::X(a) | TFormula::G(a) | TFormula::F(a) => a.is_ctl(),
            TFormula::And(a, b) | TFormula::Or(a, b) | TFormula::U(a, b) | TFormula::W(a, b)
            | TFormula::R(a, b) | TFormula::M(a, b) => a.is_ctl() || b.is_ctl(),
            _ => true,
        }
    }

    /// Whether the formula has a linear-time operator.
    pub fn has_ltl(&self) -> (r: bool)
        ensures
            r == has_linear(self.model()),
        decreases self,
    {
        match self {
            TFormula::Atom(_) => false,
            TFormula::Not(a) | TFormula::EX(a) | TFormula::AX(a) | TFormula::EG(a)
            | TFormula::AG(a) | TFormula::EF(a) | TFormula::AF(a) => a.has_ltl(),
            TFormula::And(a, b) | TFormula::Or(a, b) | TFormula::EU(a, b) | TFormula::AU(a, b)
            | TFormula::ER(a, b) | TFormula::AR(a, b) => a.has_ltl() || b.has_ltl(),
            _ => true,
        }
    }
}

} // verus!
