//! Linear-time formulas and their automata.

use crate::fexpr::{all_hold, fe_and, fe_models, fe_not, holds, not_meaning, sem, sems, FExpr, Leaves, FE};
use crate::formula::{has_branching, TFormula, TF};
use crate::temporal::all_atoms;
use crate::text::own;
use vstd::prelude::*;

verus! {

/// A linear-time formula in negation normal form.
#[derive(Debug)]
pub enum Ltl {
    True,
    False,
    Atom(FExpr),
    NAtom(FExpr),
    And(Box<Ltl>, Box<Ltl>),
    Or(Box<Ltl>, Box<Ltl>),
    X(Box<Ltl>),
    U(Box<Ltl>, Box<Ltl>),
    R(Box<Ltl>, Box<Ltl>),
}

/// The mathematical content of an [`Ltl`].
pub ghost enum NN {
    True,
    False,
    Atom(FE),
    NAtom(FE),
    And(Box<NN>, Box<NN>),
    Or(Box<NN>, Box<NN>),
    X(Box<NN>),
    U(Box<NN>, Box<NN>),
    R(Box<NN>, Box<NN>),
}

impl Ltl {
    /// The content of the formula.
    pub open spec fn model(&self) -> NN
        decreases self,
    {
        match self {
            Ltl::True => NN::True,
            Ltl::False => NN::False,
            Ltl::Atom(e) => NN::Atom(e.model()),
            Ltl::NAtom(e) => NN::NAtom(e.model()),
            Ltl::And(a, b) => NN::And(Box::new(a.model()), Box::new(b.model())),
            Ltl::Or(a, b) => NN::Or(Box::new(a.model()), Box::new(b.model())),
            Ltl::X(a) => NN::X(Box::new(a.model())),
            Ltl::U(a, b) => NN::U(Box::new(a.model()), Box::new(b.model())),
            Ltl::R(a, b) => NN::R(Box::new(a.model()), Box::new(b.model())),
        }
    }
}

impl Clone for Ltl {
    fn clone(&self) -> (r: Ltl)
        ensures
            r.model() == self.model(),
        decreases self, 0nat,
    {
        match self {
            Ltl::True => Ltl::True,
            Ltl::False => Ltl::False,
            Ltl::Atom(e) => Ltl::Atom(e.clone()),
            Ltl::NAtom(e) => Ltl::NAtom(e.clone()),
            Ltl::And(a, b) => Ltl::And(dup(a), dup(b)),
            Ltl::Or(a, b) => Ltl::Or(dup(a), dup(b)),
            Ltl::X(a) => Ltl::X(dup(a)),
            Ltl::U(a, b) => Ltl::U(dup(a), dup(b)),
            Ltl::R(a, b) => Ltl::R(dup(a), dup(b)),
        }
    }
}

fn dup(f: &Box<Ltl>) -> (r: Box<Ltl>)
    ensures
        r.model() == f.model(),
    decreases f, 1nat,
{
    Box::new((**f).clone())
}

/// A word: which atoms hold at which position.
pub type Word = spec_fn(nat, FE) -> bool;

/// The positions at which something holds.
pub type Times = spec_fn(nat) -> bool;

/// From `i` on, `q` holds at some time, and `p` until then.
pub open spec fn lt_until(p: Times, q: Times, i: nat) -> bool {
    exists|j: nat| i <= j && #[trigger] q(j) && forall|k: nat| i <= k < j ==> #[trigger] p(k)
}

/// From `i` on, `q` holds up to and including the time when `p` holds, or for ever.
pub open spec fn lt_release(p: Times, q: Times, i: nat) -> bool {
    forall|j: nat| i <= j ==> #[trigger] q(j) || exists|k: nat| i <= k < j && #[trigger] p(k)
}

/// The positions at which a formula in normal form holds.
pub open spec fn nn_sat(f: NN, w: Word) -> Times
    decreases f,
{
    match f {
        NN::True => |i: nat| true,
        NN::False => |i: nat| false,
        NN::Atom(e) => |i: nat| w(i, e),
        NN::NAtom(e) => |i: nat| !w(i, e),
        NN::And(a, b) => {
            let p = nn_sat(*a, w);
            let q = nn_sat(*b, w);
            |i: nat| p(i) && q(i)
        },
        NN::Or(a, b) => {
            let p = nn_sat(*a, w);
            let q = nn_sat(*b, w);
            |i: nat| p(i) || q(i)
        },
        NN::X(a) => {
            let p = nn_sat(*a, w);
            |i: nat| p((i + 1) as nat)
        },
        NN::U(a, b) => {
            let p = nn_sat(*a, w);
            let q = nn_sat(*b, w);
            |i: nat| lt_until(p, q, i)
        },
        NN::R(a, b) => {
            let p = nn_sat(*a, w);
            let q = nn_sat(*b, w);
            |i: nat| lt_release(p, q, i)
        },
    }
}

/// The positions at which a linear-time formula holds.
pub open spec fn tf_sat(f: TF, w: Word) -> Times
    decreases f,
{
    match f {
        TF::Atom(e) => |i: nat| w(i, e),
        TF::Not(a) => {
            let p = tf_sat(*a, w);
            |i: nat| !p(i)
        },
        TF::And(a, b) => {
            let p = tf_sat(*a, w);
            let q = tf_sat(*b, w);
            |i: nat| p(i) && q(i)
        },
        TF::Or(a, b) => {
            let p = tf_sat(*a, w);
            let q = tf_sat(*b, w);
            |i: nat| p(i) || q(i)
        },
        TF::X(a) => {
            let p = tf_sat(*a, w);
            |i: nat| p((i + 1) as nat)
        },
        TF::G(a) => {
            let p = tf_sat(*a, w);
            |i: nat| forall|j: nat| i <= j ==> #[trigger] p(j)
        },
        TF::F(a) => {
            let p = tf_sat(*a, w);
            |i: nat| exists|j: nat| i <= j && #[trigger] p(j)
        },
        TF::U(a, b) => {
            let p = tf_sat(*a, w);
            let q = tf_sat(*b, w);
            |i: nat| lt_until(p, q, i)
        },
        TF::R(a, b) => {
            let p = tf_sat(*a, w);
            let q = tf_sat(*b, w);
            |i: nat| lt_release(p, q, i)
        },
        TF::W(a, b) => {
            let p = tf_sat(*a, w);
            let q = tf_sat(*b, w);
            |i: nat| lt_until(p, q, i) || forall|j: nat| i <= j ==> #[trigger] p(j)
        },
        TF::M(a, b) => {
            let p = tf_sat(*a, w);
            let q = tf_sat(*b, w);
            |i: nat| lt_until(q, |j: nat| p(j) && q(j), i)
        },
        _ => |i: nat| false,
    }
}

/// The normal form of a linear-time formula, or of its negation.
pub open spec fn nnf(f: TF, negate: bool) -> Option<NN>
    decreases f,
{
    match f {
        TF::Atom(e) => Some(
            if negate {
                NN::NAtom(e)
            } else {
                NN::Atom(e)
            },
        ),
        TF::Not(a) => nnf(*a, !negate),
        TF::And(a, b) => match (nnf(*a, negate), nnf(*b, negate)) {
            (Some(x), Some(y)) => Some(
                if negate {
                    NN::Or(Box::new(x), Box::new(y))
                } else {
                    NN::And(Box::new(x), Box::new(y))
                },
            ),
            _ => None,
        },
        TF::Or(a, b) => match (nnf(*a, negate), nnf(*b, negate)) {
            (Some(x), Some(y)) => Some(
                if negate {
                    NN::And(Box::new(x), Box::new(y))
                } else {
                    NN::Or(Box::new(x), Box::new(y))
                },
            ),
            _ => None,
        },
        TF::X(a) => match nnf(*a, negate) {
            Some(x) => Some(NN::X(Box::new(x))),
            None => None,
        },
        TF::G(a) => match nnf(*a, negate) {
            Some(x) => Some(
                if negate {
                    NN::U(Box::new(NN::True), Box::new(x))
                } else {
                    NN::R(Box::new(NN::False), Box::new(x))
                },
            ),
            None => None,
        },
        TF::F(a) => match nnf(*a, negate) {
            Some(x) => Some(
                if negate {
                    NN::R(Box::new(NN::False), Box::new(x))
                } else {
                    NN::U(Box::new(NN::True), Box::new(x))
                },
            ),
            None => None,
        },
        TF::U(a, b) => match (nnf(*a, negate), nnf(*b, negate)) {
            (Some(x), Some(y)) => Some(
                if negate {
                    NN::R(Box::new(x), Box::new(y))
                } else {
                    NN::U(Box::new(x), Box::new(y))
                },
            ),
            _ => None,
        },
        TF::R(a, b) => match (nnf(*a, negate), nnf(*b, negate)) {
            (Some(x), Some(y)) => Some(
                if negate {
                    NN::U(Box::new(x), Box::new(y))
                } else {
                    NN::R(Box::new(x), Box::new(y))
                },
            ),
            _ => None,
        },
        TF::W(a, b) => match (nnf(*a, negate), nnf(*b, negate)) {
            (Some(x), Some(y)) => Some(
                if negate {
                    NN::U(Box::new(y), Box::new(NN::And(Box::new(y), Box::new(x))))
                } else {
                    NN::R(Box::new(y), Box::new(NN::Or(Box::new(y), Box::new(x))))
                },
            ),
            _ => None,
        },
        TF::M(a, b) => match (nnf(*a, negate), nnf(*b, negate)) {
            (Some(x), Some(y)) => Some(
                if negate {
                    NN::R(Box::new(y), Box::new(NN::Or(Box::new(x), Box::new(y))))
                } else {
                    NN::U(Box::new(y), Box::new(NN::And(Box::new(x), Box::new(y))))
                },
            ),
            _ => None,
        },
        _ => None,
    }
}

/// The least time from `i` up to `j` at which `p` holds.
proof fn earliest(p: Times, i: nat, j: nat) -> (k: nat)
    requires
        i <= j,
        p(j),
    ensures
        i <= k <= j,
        p(k),
        forall|m: nat| i <= m < k ==> !#[trigger] p(m),
    decreases j - i,
{
    if p(i) {
        i
    } else {
        earliest(p, i + 1, j)
    }
}

proof fn until_release(p: Times, q: Times, i: nat)
    ensures
        lt_until(p, q, i) == !lt_release(|k: nat| !p(k), |k: nat| !q(k), i),
{
    let np = |k: nat| !p(k);
    let nq = |k: nat| !q(k);
    if lt_until(p, q, i) {
        let j = choose|j: nat|
            i <= j && #[trigger] q(j) && forall|k: nat| i <= k < j ==> #[trigger] p(k);
        if lt_release(np, nq, i) {
            assert(nq(j) || exists|k: nat| i <= k < j && #[trigger] np(k));
            let k = choose|k: nat| i <= k < j && #[trigger] np(k);
            assert(p(k));
        }
    }
    if !lt_release(np, nq, i) {
        let j = choose|j: nat|
            i <= j && !(#[trigger] nq(j) || exists|k: nat| i <= k < j && #[trigger] np(k));
        assert(q(j));
        assert forall|k: nat| i <= k < j implies #[trigger] p(k) by {
            assert(!np(k));
        }
    }
}

proof fn times_ext(p: Times, q: Times, x: Times, y: Times, i: nat)
    requires
        forall|k: nat| #[trigger] p(k) == x(k),
        forall|k: nat| #[trigger] q(k) == y(k),
    ensures
        lt_until(p, q, i) == lt_until(x, y, i),
        lt_release(p, q, i) == lt_release(x, y, i),
{
    assert(p =~= x);
    assert(q =~= y);
}

/// The normal form holds exactly where the formula holds, or where it does not if it was negated.
pub proof fn nnf_meaning(f: TF, negate: bool, w: Word, i: nat)
    requires
        nnf(f, negate) is Some,
    ensures
        nn_sat(nnf(f, negate)->0, w)(i) == (tf_sat(f, w)(i) != negate),
    decreases f,
{
    match f {
        TF::Atom(e) => {},
        TF::Not(a) => {
            nnf_meaning(*a, !negate, w, i);
        },
        TF::And(a, b) => {
            nnf_meaning(*a, negate, w, i);
            nnf_meaning(*b, negate, w, i);
        },
        TF::Or(a, b) => {
            nnf_meaning(*a, negate, w, i);
            nnf_meaning(*b, negate, w, i);
        },
        TF::X(a) => {
            nnf_meaning(*a, negate, w, i + 1);
        },
        TF::G(a) => {
            let x = nn_sat(nnf(*a, negate)->0, w);
            let p = tf_sat(*a, w);
            assert forall|k: nat| #[trigger] x(k) == (p(k) != negate) by {
                nnf_meaning(*a, negate, w, k);
            }
            always_as(p, x, negate, w, i);
        },
        TF::F(a) => {
            let x = nn_sat(nnf(*a, negate)->0, w);
            let p = tf_sat(*a, w);
            assert forall|k: nat| #[trigger] x(k) == (p(k) != negate) by {
                nnf_meaning(*a, negate, w, k);
            }
            sometime_as(p, x, negate, w, i);
        },
        TF::U(a, b) => {
            let x = nn_sat(nnf(*a, negate)->0, w);
            let y = nn_sat(nnf(*b, negate)->0, w);
            let p = tf_sat(*a, w);
            let q = tf_sat(*b, w);
            assert forall|k: nat| #[trigger] x(k) == (p(k) != negate) by {
                nnf_meaning(*a, negate, w, k);
            }
            assert forall|k: nat| #[trigger] y(k) == (q(k) != negate) by {
                nnf_meaning(*b, negate, w, k);
            }
            if negate {
                until_release(p, q, i);
                times_ext(x, y, |k: nat| !p(k), |k: nat| !q(k), i);
            } else {
                times_ext(x, y, p, q, i);
            }
        },
        TF::R(a, b) => {
            let x = nn_sat(nnf(*a, negate)->0, w);
            let y = nn_sat(nnf(*b, negate)->0, w);
            let p = tf_sat(*a, w);
            let q = tf_sat(*b, w);
            assert forall|k: nat| #[trigger] x(k) == (p(k) != negate) by {
                nnf_meaning(*a, negate, w, k);
            }
            assert forall|k: nat| #[trigger] y(k) == (q(k) != negate) by {
                nnf_meaning(*b, negate, w, k);
            }
            if negate {
                let np = |k: nat| !p(k);
                let nq = |k: nat| !q(k);
                until_release(np, nq, i);
                times_ext(|k: nat| !np(k), |k: nat| !nq(k), p, q, i);
                times_ext(x, y, np, nq, i);
            } else {
                times_ext(x, y, p, q, i);
            }
        },
        TF::W(a, b) => {
            let x = nn_sat(nnf(*a, negate)->0, w);
            let y = nn_sat(nnf(*b, negate)->0, w);
            let p = tf_sat(*a, w);
            let q = tf_sat(*b, w);
            assert forall|k: nat| #[trigger] x(k) == (p(k) != negate) by {
                nnf_meaning(*a, negate, w, k);
            }
            assert forall|k: nat| #[trigger] y(k) == (q(k) != negate) by {
                nnf_meaning(*b, negate, w, k);
            }
            weak_as(p, q, i);
            if negate {
                let m = |k: nat| y(k) && x(k);
                times_ext(y, m, |k: nat| !q(k), |k: nat| !(q(k) || p(k)), i);
                let qp = |k: nat| q(k) || p(k);
                let nq = |k: nat| !q(k);
                let nqp = |k: nat| !qp(k);
                until_release(nq, nqp, i);
                times_ext(|k: nat| !nq(k), |k: nat| !nqp(k), q, qp, i);
                times_ext(nq, nqp, |k: nat| !q(k), |k: nat| !(q(k) || p(k)), i);
                assert(nn_sat(nnf(f, negate)->0, w)(i) == lt_until(y, m, i)) by {
                    times_ext(
                        y,
                        nn_sat(
                            NN::And(
                                Box::new(nnf(*b, negate)->0),
                                Box::new(nnf(*a, negate)->0),
                            ),
                            w,
                        ),
                        y,
                        m,
                        i,
                    );
                }
            } else {
                let m = |k: nat| y(k) || x(k);
                times_ext(y, m, q, |k: nat| q(k) || p(k), i);
                assert(nn_sat(nnf(f, negate)->0, w)(i) == lt_release(y, m, i)) by {
                    times_ext(
                        y,
                        nn_sat(
                            NN::Or(Box::new(nnf(*b, negate)->0), Box::new(nnf(*a, negate)->0)),
                            w,
                        ),
                        y,
                        m,
                        i,
                    );
                }
            }
        },
        TF::M(a, b) => {
            let x = nn_sat(nnf(*a, negate)->0, w);
            let y = nn_sat(nnf(*b, negate)->0, w);
            let p = tf_sat(*a, w);
            let q = tf_sat(*b, w);
            assert forall|k: nat| #[trigger] x(k) == (p(k) != negate) by {
                nnf_meaning(*a, negate, w, k);
            }
            assert forall|k: nat| #[trigger] y(k) == (q(k) != negate) by {
                nnf_meaning(*b, negate, w, k);
            }
            let pq = |k: nat| p(k) && q(k);
            if negate {
                let m = |k: nat| x(k) || y(k);
                until_release(q, pq, i);
                times_ext(y, m, |k: nat| !q(k), |k: nat| !pq(k), i);
                assert(nn_sat(nnf(f, negate)->0, w)(i) == lt_release(y, m, i)) by {
                    times_ext(
                        y,
                        nn_sat(
                            NN::Or(Box::new(nnf(*a, negate)->0), Box::new(nnf(*b, negate)->0)),
                            w,
                        ),
                        y,
                        m,
                        i,
                    );
                }
            } else {
                let m = |k: nat| x(k) && y(k);
                times_ext(y, m, q, pq, i);
                assert(nn_sat(nnf(f, negate)->0, w)(i) == lt_until(y, m, i)) by {
                    times_ext(
                        y,
                        nn_sat(
                            NN::And(
                                Box::new(nnf(*a, negate)->0),
                                Box::new(nnf(*b, negate)->0),
                            ),
                            w,
                        ),
                        y,
                        m,
                        i,
                    );
                }
            }
        },
        _ => {},
    }
}

proof fn always_as(p: Times, x: Times, negate: bool, w: Word, i: nat)
    requires
        forall|k: nat| #[trigger] x(k) == (p(k) != negate),
    ensures
        negate ==> lt_until(nn_sat(NN::True, w), x, i) == !(forall|j: nat|
            i <= j ==> #[trigger] p(j)),
        !negate ==> lt_release(nn_sat(NN::False, w), x, i) == (forall|j: nat|
            i <= j ==> #[trigger] p(j)),
{
    let t = nn_sat(NN::True, w);
    let z = nn_sat(NN::False, w);
    if negate {
        if lt_until(t, x, i) {
            let j = choose|j: nat|
                i <= j && #[trigger] x(j) && forall|k: nat| i <= k < j ==> #[trigger] t(k);
            assert(!p(j));
        }
        if !(forall|j: nat| i <= j ==> #[trigger] p(j)) {
            let j = choose|j: nat| i <= j && !#[trigger] p(j);
            assert(x(j));
            assert(forall|k: nat| i <= k < j ==> #[trigger] t(k));
        }
    } else {
        if lt_release(z, x, i) {
            assert forall|j: nat| i <= j implies #[trigger] p(j) by {
                assert(x(j) || exists|k: nat| i <= k < j && #[trigger] z(k));
            }
        }
        if forall|j: nat| i <= j ==> #[trigger] p(j) {
            assert forall|j: nat| i <= j implies #[trigger] x(j) || exists|k: nat|
                i <= k < j && #[trigger] z(k) by {
                assert(p(j));
            }
        }
    }
}

proof fn sometime_as(p: Times, x: Times, negate: bool, w: Word, i: nat)
    requires
        forall|k: nat| #[trigger] x(k) == (p(k) != negate),
    ensures
        !negate ==> lt_until(nn_sat(NN::True, w), x, i) == (exists|j: nat|
            i <= j && #[trigger] p(j)),
        negate ==> lt_release(nn_sat(NN::False, w), x, i) == !(exists|j: nat|
            i <= j && #[trigger] p(j)),
{
    let np = |k: nat| !p(k);
    assert forall|k: nat| #[trigger] x(k) == (np(k) != !negate) by {}
    always_as(np, x, !negate, w, i);
    if exists|j: nat| i <= j && #[trigger] p(j) {
        let j = choose|j: nat| i <= j && #[trigger] p(j);
        assert(!np(j));
    }
    if !(forall|j: nat| i <= j ==> #[trigger] np(j)) {
        let j = choose|j: nat| i <= j && !#[trigger] np(j);
        assert(p(j));
    }
}

/// Weak until as a release.
proof fn weak_as(p: Times, q: Times, i: nat)
    ensures
        (lt_until(p, q, i) || forall|j: nat| i <= j ==> #[trigger] p(j)) == lt_release(
            q,
            |k: nat| q(k) || p(k),
            i,
        ),
{
    let qp = |k: nat| q(k) || p(k);
    if lt_until(p, q, i) {
        let j = choose|j: nat|
            i <= j && #[trigger] q(j) && forall|k: nat| i <= k < j ==> #[trigger] p(k);
        assert forall|m: nat| i <= m implies #[trigger] qp(m) || exists|k: nat|
            i <= k < m && #[trigger] q(k) by {
            if m < j {
                assert(p(m));
            } else if m > j {
                assert(i <= j < m && q(j));
            }
        }
    }
    if forall|j: nat| i <= j ==> #[trigger] p(j) {
        assert forall|m: nat| i <= m implies #[trigger] qp(m) || exists|k: nat|
            i <= k < m && #[trigger] q(k) by {
            assert(p(m));
        }
    }
    if lt_release(q, qp, i) && !(forall|j: nat| i <= j ==> #[trigger] p(j)) {
        let m = choose|m: nat| i <= m && !#[trigger] p(m);
        assert(qp(m) || exists|k: nat| i <= k < m && #[trigger] q(k));
        let some = if q(m) {
            m
        } else {
            choose|k: nat| i <= k < m && #[trigger] q(k)
        };
        let j = earliest(q, i, some);
        assert forall|k: nat| i <= k < j implies #[trigger] p(k) by {
            assert(!q(k));
            assert(qp(k) || exists|n: nat| i <= n < k && #[trigger] q(n));
            if !qp(k) {
                let n = choose|n: nat| i <= n < k && #[trigger] q(n);
                assert(!q(n));
            }
        }
        assert(q(j));
    }
}

/// A formula has a normal form exactly if no branching-time operator occurs in it.
pub proof fn nnf_defined(f: TF, negate: bool)
    ensures
        nnf(f, negate) is Some <==> !has_branching(f),
    decreases f,
{
    match f {
        TF::Not(a) => {
            nnf_defined(*a, !negate);
        },
        TF::X(a) | TF::G(a) | TF::F(a) => {
            nnf_defined(*a, negate);
        },
        TF::And(a, b) | TF::Or(a, b) | TF::U(a, b) | TF::R(a, b) | TF::W(a, b) | TF::M(a, b) => {
            nnf_defined(*a, negate);
            nnf_defined(*b, negate);
        },
        _ => {},
    }
}

/// The normal form of a formula, or of its negation.
pub fn to_nnf(f: &TFormula, negate: bool) -> (r: Result<Ltl, String>)
    ensures
        match r {
            Ok(n) => nnf(f.model(), negate) == Some(n.model()),
            Err(m) => nnf(f.model(), negate) is None && m@
                == "CTL operators cannot appear in an LTL formula"@,
        },
    decreases f,
{
    proof {
        reveal_with_fuel(Ltl::model, 3);
    }
    match f {
        TFormula::Atom(e) => Ok(
            if negate {
                Ltl::NAtom(e.clone())
            } else {
                Ltl::Atom(e.clone())
            },
        ),
        TFormula::Not(a) => to_nnf(a, !negate),
        TFormula::And(a, b) => {
            let x = Box::new(to_nnf(a, negate)?);
            let y = Box::new(to_nnf(b, negate)?);
            Ok(
                if negate {
                    Ltl::Or(x, y)
                } else {
                    Ltl::And(x, y)
                },
            )
        },
        TFormula::Or(a, b) => {
            let x = Box::new(to_nnf(a, negate)?);
            let y = Box::new(to_nnf(b, negate)?);
            Ok(
                if negate {
                    Ltl::And(x, y)
                } else {
                    Ltl::Or(x, y)
                },
            )
        },
        TFormula::X(a) => Ok(Ltl::X(Box::new(to_nnf(a, negate)?))),
        TFormula::G(a) => {
            let x = Box::new(to_nnf(a, negate)?);
            Ok(
                if negate {
                    Ltl::U(Box::new(Ltl::True), x)
                } else {
                    Ltl::R(Box::new(Ltl::False), x)
                },
            )
        },
        TFormula::F(a) => {
            let x = Box::new(to_nnf(a, negate)?);
            Ok(
                if negate {
                    Ltl::R(Box::new(Ltl::False), x)
                } else {
                    Ltl::U(Box::new(Ltl::True), x)
                },
            )
        },
        TFormula::U(a, b) => {
            let x = Box::new(to_nnf(a, negate)?);
            let y = Box::new(to_nnf(b, negate)?);
            Ok(
                if negate {
                    Ltl::R(x, y)
                } else {
                    Ltl::U(x, y)
                },
            )
        },
        TFormula::R(a, b) => {
            let x = Box::new(to_nnf(a, negate)?);
            let y = Box::new(to_nnf(b, negate)?);
            Ok(
                if negate {
                    Ltl::U(x, y)
                } else {
                    Ltl::R(x, y)
                },
            )
        },
        TFormula::W(a, b) => {
            let x = Box::new(to_nnf(a, negate)?);
            let y = Box::new(to_nnf(b, negate)?);
            let z = dup(&y);
            Ok(
                if negate {
                    Ltl::U(z, Box::new(Ltl::And(y, x)))
                } else {
                    Ltl::R(z, Box::new(Ltl::Or(y, x)))
                },
            )
        },
        TFormula::M(a, b) => {
            let x = Box::new(to_nnf(a, negate)?);
            let y = Box::new(to_nnf(b, negate)?);
            let z = dup(&y);
            Ok(
                if negate {
                    Ltl::R(z, Box::new(Ltl::Or(x, y)))
                } else {
                    Ltl::U(z, Box::new(Ltl::And(x, y)))
                },
            )
        },
        _ => Err(own("CTL operators cannot appear in an LTL formula")),
    }
}

/// A subformula in a table; its parts stand before it.
enum Sub {
    True,
    False,
    Atom(FExpr),
    NAtom(FExpr),
    And(usize, usize),
    Or(usize, usize),
    X(usize),
    U(usize, usize),
    R(usize, usize),
}

ghost enum SubM {
    True,
    False,
    Atom(FE),
    NAtom(FE),
    And(int, int),
    Or(int, int),
    X(int),
    U(int, int),
    R(int, int),
}

impl Sub {
    spec fn model(&self) -> SubM {
        match self {
            Sub::True => SubM::True,
            Sub::False => SubM::False,
            Sub::Atom(e) => SubM::Atom(e.model()),
            Sub::NAtom(e) => SubM::NAtom(e.model()),
            Sub::And(a, b) => SubM::And(*a as int, *b as int),
            Sub::Or(a, b) => SubM::Or(*a as int, *b as int),
            Sub::X(a) => SubM::X(*a as int),
            Sub::U(a, b) => SubM::U(*a as int, *b as int),
            Sub::R(a, b) => SubM::R(*a as int, *b as int),
        }
    }

    fn same(&self, o: &Sub) -> (r: bool)
        ensures
            r == (self.model() == o.model()),
    {
        match (self, o) {
            (Sub::True, Sub::True) => true,
            (Sub::False, Sub::False) => true,
            (Sub::Atom(a), Sub::Atom(b)) => a.same(b),
            (Sub::NAtom(a), Sub::NAtom(b)) => a.same(b),
            (Sub::And(a, b), Sub::And(x, y)) => *a == *x && *b == *y,
            (Sub::Or(a, b), Sub::Or(x, y)) => *a == *x && *b == *y,
            (Sub::X(a), Sub::X(x)) => *a == *x,
            (Sub::U(a, b), Sub::U(x, y)) => *a == *x && *b == *y,
            (Sub::R(a, b), Sub::R(x, y)) => *a == *x && *b == *y,
            _ => false,
        }
    }
}

spec fn tab_of(t: Seq<Sub>) -> Seq<SubM> {
    Seq::new(t.len(), |i: int| t[i].model())
}

spec fn parts_before(s: SubM, i: int) -> bool {
    match s {
        SubM::And(a, b) => 0 <= a < i && 0 <= b < i,
        SubM::Or(a, b) => 0 <= a < i && 0 <= b < i,
        SubM::X(a) => 0 <= a < i,
        SubM::U(a, b) => 0 <= a < i && 0 <= b < i,
        SubM::R(a, b) => 0 <= a < i && 0 <= b < i,
        _ => true,
    }
}

spec fn tab_ok(t: Seq<SubM>) -> bool {
    forall|i: int| 0 <= i < t.len() ==> parts_before(#[trigger] t[i], i)
}

/// The formula number `i` of the table.
spec fn formula(t: Seq<SubM>, i: int) -> NN
    decreases i,
{
    if 0 <= i < t.len() && parts_before(t[i], i) {
        match t[i] {
            SubM::True => NN::True,
            SubM::False => NN::False,
            SubM::Atom(e) => NN::Atom(e),
            SubM::NAtom(e) => NN::NAtom(e),
            SubM::And(a, b) => NN::And(Box::new(formula(t, a)), Box::new(formula(t, b))),
            SubM::Or(a, b) => NN::Or(Box::new(formula(t, a)), Box::new(formula(t, b))),
            SubM::X(a) => NN::X(Box::new(formula(t, a))),
            SubM::U(a, b) => NN::U(Box::new(formula(t, a)), Box::new(formula(t, b))),
            SubM::R(a, b) => NN::R(Box::new(formula(t, a)), Box::new(formula(t, b))),
        }
    } else {
        NN::False
    }
}

spec fn sub_atoms(s: SubM, p: spec_fn(FE) -> bool) -> bool {
    match s {
        SubM::Atom(e) => p(e),
        SubM::NAtom(e) => p(e),
        _ => true,
    }
}

spec fn tab_atoms(t: Seq<SubM>, p: spec_fn(FE) -> bool) -> bool {
    forall|i: int| 0 <= i < t.len() ==> sub_atoms(#[trigger] t[i], p)
}

/// A property of every atom of a formula.
pub open spec fn nn_atoms(f: NN, p: spec_fn(FE) -> bool) -> bool
    decreases f,
{
    match f {
        NN::True => true,
        NN::False => true,
        NN::Atom(e) => p(e),
        NN::NAtom(e) => p(e),
        NN::And(a, b) => nn_atoms(*a, p) && nn_atoms(*b, p),
        NN::Or(a, b) => nn_atoms(*a, p) && nn_atoms(*b, p),
        NN::X(a) => nn_atoms(*a, p),
        NN::U(a, b) => nn_atoms(*a, p) && nn_atoms(*b, p),
        NN::R(a, b) => nn_atoms(*a, p) && nn_atoms(*b, p),
    }
}

/// The normal form has the atoms of the formula.
pub proof fn nnf_atoms(f: TF, negate: bool, p: spec_fn(FE) -> bool)
    requires
        nnf(f, negate) is Some,
        all_atoms(f, p),
    ensures
        nn_atoms(nnf(f, negate)->0, p),
    decreases f,
{
    reveal_with_fuel(nn_atoms, 3);
    match f {
        TF::Not(a) => {
            nnf_atoms(*a, !negate, p);
        },
        TF::X(a) | TF::G(a) | TF::F(a) => {
            nnf_atoms(*a, negate, p);
        },
        TF::And(a, b) | TF::Or(a, b) | TF::U(a, b) | TF::R(a, b) | TF::W(a, b) | TF::M(a, b) => {
            nnf_atoms(*a, negate, p);
            nnf_atoms(*b, negate, p);
        },
        _ => {},
    }
}

spec fn prefix(s: Seq<SubM>, t: Seq<SubM>) -> bool {
    s.len() <= t.len() && forall|i: int| 0 <= i < s.len() ==> #[trigger] s[i] == t[i]
}

proof fn formula_prefix(s: Seq<SubM>, t: Seq<SubM>, i: int)
    requires
        prefix(s, t),
        tab_ok(s),
        tab_ok(t),
        0 <= i < s.len(),
    ensures
        formula(s, i) == formula(t, i),
    decreases i,
{
    assert(s[i] == t[i]);
    assert(parts_before(s[i], i));
    match s[i] {
        SubM::And(a, b) | SubM::Or(a, b) | SubM::U(a, b) | SubM::R(a, b) => {
            formula_prefix(s, t, a);
            formula_prefix(s, t, b);
        },
        SubM::X(a) => {
            formula_prefix(s, t, a);
        },
        _ => {},
    }
}

/// Finds an entry in the table, or adds it.
fn put_sub(t: &mut Vec<Sub>, s: Sub) -> (r: usize)
    requires
        tab_ok(tab_of(old(t)@)),
        parts_before(s.model(), old(t)@.len() as int),
    ensures
        tab_ok(tab_of(final(t)@)),
        prefix(tab_of(old(t)@), tab_of(final(t)@)),
        r < final(t)@.len(),
        tab_of(final(t)@)[r as int] == s.model(),
        forall|p: spec_fn(FE) -> bool|
            tab_atoms(tab_of(old(t)@), p) && sub_atoms(s.model(), p) ==> #[trigger] tab_atoms(
                tab_of(final(t)@),
                p,
            ),
{
    let mut i: usize = 0;
    while i < t.len()
        invariant
            i <= t@.len(),
            *t == *old(t),
            tab_ok(tab_of(t@)),
            parts_before(s.model(), t@.len() as int),
        decreases t.len() - i,
    {
        if t[i].same(&s) {
            return i;
        }
        i += 1;
    }
    t.push(s);
    assert(prefix(tab_of(old(t)@), tab_of(t@)));
    assert forall|k: int| 0 <= k < t@.len() implies parts_before(#[trigger] tab_of(t@)[k], k) by {
        if k < old(t)@.len() {
            assert(tab_of(old(t)@)[k] == tab_of(t@)[k]);
        }
    }
    assert forall|p: spec_fn(FE) -> bool| tab_atoms(tab_of(old(t)@), p) && sub_atoms(s.model(), p) implies
        #[trigger] tab_atoms(tab_of(t@), p) by {
        assert forall|k: int| 0 <= k < t@.len() implies sub_atoms(#[trigger] tab_of(t@)[k], p) by {
            if k < old(t)@.len() {
                assert(tab_of(old(t)@)[k] == tab_of(t@)[k]);
            }
        }
    }
    i
}

proof fn prefix_trans(a: Seq<SubM>, b: Seq<SubM>, c: Seq<SubM>)
    requires
        prefix(a, b),
        prefix(b, c),
    ensures
        prefix(a, c),
{
    assert forall|i: int| 0 <= i < a.len() implies #[trigger] a[i] == c[i] by {
        assert(a[i] == b[i]);
        assert(b[i] == c[i]);
    }
}

/// Puts a formula into the table.
fn intern(t: &mut Vec<Sub>, f: &Ltl) -> (r: usize)
    requires
        tab_ok(tab_of(old(t)@)),
    ensures
        tab_ok(tab_of(final(t)@)),
        prefix(tab_of(old(t)@), tab_of(final(t)@)),
        r < final(t)@.len(),
        formula(tab_of(final(t)@), r as int) == f.model(),
        forall|p: spec_fn(FE) -> bool|
            tab_atoms(tab_of(old(t)@), p) && nn_atoms(f.model(), p) ==> #[trigger] tab_atoms(
                tab_of(final(t)@),
                p,
            ),
    decreases f, 1nat,
{
    let ghost t0 = tab_of(t@);
    match f {
        Ltl::True => put_sub(t, Sub::True),
        Ltl::False => put_sub(t, Sub::False),
        Ltl::Atom(e) => put_sub(t, Sub::Atom(e.clone())),
        Ltl::NAtom(e) => put_sub(t, Sub::NAtom(e.clone())),
        Ltl::X(a) => {
            let x = intern(t, a);
            let ghost t1 = tab_of(t@);
            let r = put_sub(t, Sub::X(x));
            proof {
                prefix_trans(t0, t1, tab_of(t@));
                formula_prefix(t1, tab_of(t@), x as int);
                assert(parts_before(tab_of(t@)[r as int], r as int));
                assert forall|p: spec_fn(FE) -> bool| tab_atoms(t0, p) && nn_atoms(f.model(), p) implies
                    #[trigger] tab_atoms(tab_of(t@), p) by {
                    assert(tab_atoms(t1, p));
                }
            }
            r
        },
        Ltl::And(a, b) => {
            let (x, y) = intern_two(t, a, b, Ghost(*f));
            let ghost t1 = tab_of(t@);
            let r = put_sub(t, Sub::And(x, y));
            proof {
                prefix_trans(t0, t1, tab_of(t@));
                formula_prefix(t1, tab_of(t@), x as int);
                formula_prefix(t1, tab_of(t@), y as int);
                assert(parts_before(tab_of(t@)[r as int], r as int));
                assert forall|p: spec_fn(FE) -> bool| tab_atoms(t0, p) && nn_atoms(f.model(), p) implies
                    #[trigger] tab_atoms(tab_of(t@), p) by {
                    assert(tab_atoms(t1, p));
                }
            }
            r
        },
        Ltl::Or(a, b) => {
            let (x, y) = intern_two(t, a, b, Ghost(*f));
            let ghost t1 = tab_of(t@);
            let r = put_sub(t, Sub::Or(x, y));
            proof {
                prefix_trans(t0, t1, tab_of(t@));
                formula_prefix(t1, tab_of(t@), x as int);
                formula_prefix(t1, tab_of(t@), y as int);
                assert(parts_before(tab_of(t@)[r as int], r as int));
                assert forall|p: spec_fn(FE) -> bool| tab_atoms(t0, p) && nn_atoms(f.model(), p) implies
                    #[trigger] tab_atoms(tab_of(t@), p) by {
                    assert(tab_atoms(t1, p));
                }
            }
            r
        },
        Ltl::U(a, b) => {
            let (x, y) = intern_two(t, a, b, Ghost(*f));
            let ghost t1 = tab_of(t@);
            let r = put_sub(t, Sub::U(x, y));
            proof {
                prefix_trans(t0, t1, tab_of(t@));
                formula_prefix(t1, tab_of(t@), x as int);
                formula_prefix(t1, tab_of(t@), y as int);
                assert(parts_before(tab_of(t@)[r as int], r as int));
                assert forall|p: spec_fn(FE) -> bool| tab_atoms(t0, p) && nn_atoms(f.model(), p) implies
                    #[trigger] tab_atoms(tab_of(t@), p) by {
                    assert(tab_atoms(t1, p));
                }
            }
            r
        },
        Ltl::R(a, b) => {
            let (x, y) = intern_two(t, a, b, Ghost(*f));
            let ghost t1 = tab_of(t@);
            let r = put_sub(t, Sub::R(x, y));
            proof {
                prefix_trans(t0, t1, tab_of(t@));
                formula_prefix(t1, tab_of(t@), x as int);
                formula_prefix(t1, tab_of(t@), y as int);
                assert(parts_before(tab_of(t@)[r as int], r as int));
                assert forall|p: spec_fn(FE) -> bool| tab_atoms(t0, p) && nn_atoms(f.model(), p) implies
                    #[trigger] tab_atoms(tab_of(t@), p) by {
                    assert(tab_atoms(t1, p));
                }
            }
            r
        },
    }
}

fn intern_two(t: &mut Vec<Sub>, a: &Box<Ltl>, b: &Box<Ltl>, Ghost(whole): Ghost<Ltl>) -> (r: (
    usize,
    usize,
))
    requires
        tab_ok(tab_of(old(t)@)),
        decreases_to!(whole => *a),
        decreases_to!(whole => *b),
    ensures
        tab_ok(tab_of(final(t)@)),
        prefix(tab_of(old(t)@), tab_of(final(t)@)),
        r.0 < final(t)@.len(),
        r.1 < final(t)@.len(),
        formula(tab_of(final(t)@), r.0 as int) == a.model(),
        formula(tab_of(final(t)@), r.1 as int) == b.model(),
        forall|p: spec_fn(FE) -> bool|
            tab_atoms(tab_of(old(t)@), p) && nn_atoms(a.model(), p) && nn_atoms(b.model(), p)
                ==> #[trigger] tab_atoms(tab_of(final(t)@), p),
    decreases whole, 0nat,
{
    let ghost t0 = tab_of(t@);
    let x = intern(t, a);
    let ghost t1 = tab_of(t@);
    let y = intern(t, b);
    proof {
        prefix_trans(t0, t1, tab_of(t@));
        formula_prefix(t1, tab_of(t@), x as int);
        assert forall|p: spec_fn(FE) -> bool| tab_atoms(t0, p) && nn_atoms(a.model(), p) && nn_atoms(
            b.model(),
            p,
        ) implies #[trigger] tab_atoms(tab_of(t@), p) by {
            assert(tab_atoms(t1, p));
        }
    }
    (x, y)
}

/// A node of the tableau: where it is entered from, what is still to be expanded, what has been,
/// and what has to hold next.
struct GNode {
    init: bool,
    incoming: Vec<usize>,
    new: Vec<bool>,
    old: Vec<bool>,
    next: Vec<bool>,
}

ghost struct GN {
    init: bool,
    incoming: Seq<usize>,
    new: Seq<bool>,
    old: Seq<bool>,
    next: Seq<bool>,
}

impl View for GNode {
    type V = GN;

    closed spec fn view(&self) -> GN {
        GN {
            init: self.init,
            incoming: self.incoming@,
            new: self.new@,
            old: self.old@,
            next: self.next@,
        }
    }
}

spec fn gns(ns: Seq<GNode>) -> Seq<GN> {
    Seq::new(ns.len(), |i: int| ns[i]@)
}

/// The formula has been or will be expanded in the node, or is trivially true.
spec fn listed(t: Seq<SubM>, n: GN, x: int) -> bool {
    t[x] is True || n.old[x] || n.new[x]
}

spec fn sized(t: Seq<SubM>, n: GN) -> bool {
    n.new.len() == t.len() && n.old.len() == t.len() && n.next.len() == t.len()
}

/// What an expanded formula asks for is there.
spec fn settled(t: Seq<SubM>, n: GN, x: int) -> bool {
    match t[x] {
        SubM::True => false,
        SubM::False => false,
        SubM::Atom(_) => true,
        SubM::NAtom(_) => true,
        SubM::And(a, b) => listed(t, n, a) && listed(t, n, b),
        SubM::Or(a, b) => listed(t, n, a) || listed(t, n, b),
        SubM::X(a) => n.next[a],
        SubM::U(a, b) => listed(t, n, b) || (listed(t, n, a) && n.next[x]),
        SubM::R(a, b) => listed(t, n, b) && (listed(t, n, a) || n.next[x]),
    }
}

spec fn gn_ok(t: Seq<SubM>, n: GN) -> bool {
    &&& sized(t, n)
    &&& forall|x: int| 0 <= x < t.len() && #[trigger] n.old[x] ==> settled(t, n, x) && !n.new[x]
}

/// The formula holds at a position.
spec fn sat(t: Seq<SubM>, x: int, w: Word, i: nat) -> bool {
    nn_sat(formula(t, x), w)(i)
}

/// The word meets the node at a position, and every until that is fulfilled there is so in the
/// node.
spec fn meets(t: Seq<SubM>, n: GN, w: Word, i: nat) -> bool {
    &&& forall|x: int| 0 <= x < t.len() && #[trigger] n.old[x] ==> sat(t, x, w, i)
    &&& forall|x: int| 0 <= x < t.len() && #[trigger] n.new[x] ==> sat(t, x, w, i)
    &&& forall|x: int| 0 <= x < t.len() && #[trigger] n.next[x] ==> sat(t, x, w, i + 1)
    &&& forall|x: int|
        0 <= x < t.len() && #[trigger] n.old[x] ==> (t[x] matches SubM::U(a, b) ==> sat(t, b, w, i)
            ==> listed(t, n, b))
}

/// The node is entered from `src`, or is initial where `src` is negative.
spec fn comes(n: GN, src: int) -> bool {
    if src < 0 {
        n.init
    } else {
        exists|k: int| 0 <= k < n.incoming.len() && #[trigger] n.incoming[k] == src
    }
}

spec fn covered(t: Seq<SubM>, ns: Seq<GN>, src: int, w: Word, i: nat) -> bool {
    exists|k: int| 0 <= k < ns.len() && comes(#[trigger] ns[k], src) && meets(t, ns[k], w, i)
}

/// A word that has to be met after `src`.
spec fn wants(t: Seq<SubM>, nodes: Seq<GN>, root: int, src: int, w: Word, i: nat) -> bool {
    if src < 0 {
        sat(t, root, w, i)
    } else {
        forall|x: int| 0 <= x < t.len() && #[trigger] nodes[src].next[x] ==> sat(t, x, w, i)
    }
}

/// The node has what its sources ask for.
spec fn fed(t: Seq<SubM>, nodes: Seq<GN>, root: int, n: GN) -> bool {
    &&& n.init ==> listed(t, n, root)
    &&& forall|k: int| 0 <= k < n.incoming.len() ==> (#[trigger] n.incoming[k]) < nodes.len()
    &&& forall|k: int, x: int|
        0 <= k < n.incoming.len() && 0 <= x < t.len() && nodes[#[trigger] n.incoming[k] as int].next[x]
            ==> #[trigger] listed(t, n, x)
}

/// The tableau so far, with the nodes that are still to be expanded.
spec fn tableau(t: Seq<SubM>, nodes: Seq<GN>, stack: Seq<GN>, root: int) -> bool {
    &&& tab_ok(t)
    &&& 0 <= root < t.len()
    &&& forall|k: int|
        0 <= k < nodes.len() ==> gn_ok(t, #[trigger] nodes[k]) && fed(t, nodes, root, nodes[k])
            && forall|x: int| 0 <= x < t.len() ==> !#[trigger] nodes[k].new[x]
    &&& forall|k: int|
        0 <= k < stack.len() ==> gn_ok(t, #[trigger] stack[k]) && fed(t, nodes, root, stack[k])
    &&& forall|k: int, l: int|
        0 <= k < l < nodes.len() ==> (#[trigger] nodes[k]).old != (#[trigger] nodes[l]).old
            || nodes[k].next != nodes[l].next
    &&& forall|src: int, w: Word, i: nat|
        -1 <= src < nodes.len() && wants(t, nodes, root, src, w, i) ==> #[trigger] covered(
            t,
            nodes,
            src,
            w,
            i,
        ) || covered(t, stack, src, w, i)
}

proof fn sat_true(t: Seq<SubM>, x: int, w: Word, i: nat)
    requires
        tab_ok(t),
        0 <= x < t.len(),
    ensures
        t[x] is True ==> sat(t, x, w, i),
        t[x] is False ==> !sat(t, x, w, i),
        t[x] matches SubM::Atom(e) ==> sat(t, x, w, i) == w(i, e),
        t[x] matches SubM::NAtom(e) ==> sat(t, x, w, i) == !w(i, e),
        t[x] matches SubM::And(a, b) ==> sat(t, x, w, i) == (sat(t, a, w, i) && sat(t, b, w, i)),
        t[x] matches SubM::Or(a, b) ==> sat(t, x, w, i) == (sat(t, a, w, i) || sat(t, b, w, i)),
        t[x] matches SubM::X(a) ==> sat(t, x, w, i) == sat(t, a, w, i + 1),
        t[x] matches SubM::U(a, b) ==> sat(t, x, w, i) == (sat(t, b, w, i) || (sat(t, a, w, i) && sat(
            t,
            x,
            w,
            i + 1,
        ))),
        t[x] matches SubM::R(a, b) ==> sat(t, x, w, i) == (sat(t, b, w, i) && (sat(t, a, w, i) || sat(
            t,
            x,
            w,
            i + 1,
        ))),
{
    assert(parts_before(t[x], x));
    match t[x] {
        SubM::U(a, b) => {
            let p = nn_sat(formula(t, a), w);
            let q = nn_sat(formula(t, b), w);
            assert(sat(t, x, w, i) == lt_until(p, q, i));
            assert(sat(t, x, w, i + 1) == lt_until(p, q, i + 1));
            if lt_until(p, q, i) && !q(i) {
                let j = choose|j: nat|
                    i <= j && #[trigger] q(j) && forall|k: nat| i <= k < j ==> #[trigger] p(k);
                assert(j != i);
                assert(p(i));
                assert(i + 1 <= j && q(j) && forall|k: nat| i + 1 <= k < j ==> #[trigger] p(k));
            }
            if q(i) {
                assert(i <= i && q(i) && forall|k: nat| i <= k < i ==> #[trigger] p(k));
            }
            if p(i) && lt_until(p, q, i + 1) {
                let j = choose|j: nat|
                    i + 1 <= j && #[trigger] q(j) && forall|k: nat|
                        i + 1 <= k < j ==> #[trigger] p(k);
                assert(i <= j && q(j) && forall|k: nat| i <= k < j ==> #[trigger] p(k));
            }
        },
        SubM::R(a, b) => {
            let p = nn_sat(formula(t, a), w);
            let q = nn_sat(formula(t, b), w);
            assert(sat(t, x, w, i) == lt_release(p, q, i));
            assert(sat(t, x, w, i + 1) == lt_release(p, q, i + 1));
            if lt_release(p, q, i) {
                assert(q(i) || exists|k: nat| i <= k < i && #[trigger] p(k));
                if !p(i) {
                    assert forall|j: nat| i + 1 <= j implies #[trigger] q(j) || exists|k: nat|
                        i + 1 <= k < j && #[trigger] p(k) by {
                        if !q(j) {
                            let k = choose|k: nat| i <= k < j && #[trigger] p(k);
                            assert(i + 1 <= k < j && p(k));
                        }
                    }
                }
            }
            if q(i) && p(i) {
                assert forall|j: nat| i <= j implies #[trigger] q(j) || exists|k: nat|
                    i <= k < j && #[trigger] p(k) by {
                    if j > i {
                        assert(i <= i < j && p(i));
                    }
                }
            }
            if q(i) && lt_release(p, q, i + 1) {
                assert forall|j: nat| i <= j implies #[trigger] q(j) || exists|k: nat|
                    i <= k < j && #[trigger] p(k) by {
                    if j > i && !q(j) {
                        let k = choose|k: nat| i + 1 <= k < j && #[trigger] p(k);
                        assert(i <= k < j && p(k));
                    }
                }
            }
        },
        _ => {},
    }
}

spec fn ones(b: Seq<bool>) -> nat
    decreases b.len(),
{
    if b.len() == 0 {
        0
    } else {
        ones(b.drop_last()) + if b.last() {
            1nat
        } else {
            0nat
        }
    }
}

proof fn ones_bound(b: Seq<bool>)
    ensures
        ones(b) <= b.len(),
    decreases b.len(),
{
    if b.len() > 0 {
        ones_bound(b.drop_last());
    }
}

proof fn ones_set(b: Seq<bool>, i: int)
    requires
        0 <= i < b.len(),
        !b[i],
    ensures
        ones(b.update(i, true)) == ones(b) + 1,
    decreases b.len(),
{
    let u = b.update(i, true);
    if i == b.len() - 1 {
        assert(u.drop_last() =~= b.drop_last());
    } else {
        assert(u.drop_last() =~= b.drop_last().update(i, true));
        ones_set(b.drop_last(), i);
    }
}

/// The trivially true formulas that are still to be expanded.
spec fn trivial(t: Seq<SubM>, n: GN) -> Seq<bool> {
    Seq::new(t.len(), |x: int| t[x] is True && n.new[x])
}

/// How much is left to expand in a node.
spec fn effort(t: Seq<SubM>, n: GN) -> nat {
    ((t.len() + 1) * (t.len() - ones(n.old)) + ones(trivial(t, n))) as nat
}

spec fn p3(n: nat) -> nat
    decreases n,
{
    if n == 0 {
        1
    } else {
        3 * p3((n - 1) as nat)
    }
}

proof fn p3_mono(m: nat, n: nat)
    requires
        m <= n,
    ensures
        1 <= p3(m) <= p3(n),
    decreases n,
{
    if n > 0 {
        if m < n {
            p3_mono(m, (n - 1) as nat);
        } else {
            p3_mono((m - 1) as nat, (n - 1) as nat);
        }
    }
}

spec fn load(t: Seq<SubM>, stack: Seq<GN>) -> nat
    decreases stack.len(),
{
    if stack.len() == 0 {
        0
    } else {
        load(t, stack.drop_last()) + p3(effort(t, stack.last()))
    }
}

/// All sequences of `m` truth values.
spec fn all_bits(m: nat) -> Seq<Seq<bool>>
    decreases m,
{
    if m == 0 {
        seq![Seq::empty()]
    } else {
        let s = all_bits((m - 1) as nat);
        Seq::new(
            s.len() + s.len(),
            |i: int|
                if i < s.len() {
                    s[i].push(false)
                } else {
                    s[i - s.len()].push(true)
                },
        )
    }
}

spec fn bound(m: nat) -> nat {
    all_bits(m).len()
}

proof fn all_bits_full(m: nat, b: Seq<bool>)
    requires
        b.len() == m,
    ensures
        all_bits(m).contains(b),
    decreases m,
{
    if m == 0 {
        assert(b =~= Seq::empty());
        assert(all_bits(0)[0] == b);
    } else {
        let s = all_bits((m - 1) as nat);
        all_bits_full((m - 1) as nat, b.drop_last());
        let i = choose|i: int| 0 <= i < s.len() && s[i] == b.drop_last();
        assert(b =~= b.drop_last().push(b.last()));
        if b.last() {
            assert(all_bits(m)[i + s.len()] == b);
        } else {
            assert(all_bits(m)[i] == b);
        }
    }
}

proof fn distinct_bound(ss: Seq<Seq<bool>>, m: nat)
    requires
        ss.no_duplicates(),
        forall|i: int| 0 <= i < ss.len() ==> (#[trigger] ss[i]).len() == m,
    ensures
        ss.len() <= bound(m),
{
    let a = all_bits(m);
    ss.unique_seq_to_set();
    assert(ss.to_set().subset_of(a.to_set())) by {
        assert forall|b: Seq<bool>| ss.to_set().contains(b) implies a.to_set().contains(b) by {
            let i = choose|i: int| 0 <= i < ss.len() && ss[i] == b;
            all_bits_full(m, b);
        }
    }
    vstd::seq_lib::seq_to_set_is_finite(a);
    vstd::set_lib::lemma_len_subset(ss.to_set(), a.to_set());
    a.lemma_cardinality_of_set();
}

spec fn keys(nodes: Seq<GN>) -> Seq<Seq<bool>> {
    Seq::new(nodes.len(), |k: int| nodes[k].old + nodes[k].next)
}

proof fn nodes_bound(t: Seq<SubM>, nodes: Seq<GN>)
    requires
        forall|k: int| 0 <= k < nodes.len() ==> sized(t, #[trigger] nodes[k]),
        forall|k: int, l: int|
            0 <= k < l < nodes.len() ==> (#[trigger] nodes[k]).old != (#[trigger] nodes[l]).old
                || nodes[k].next != nodes[l].next,
    ensures
        nodes.len() <= bound(2 * t.len()),
{
    let ks = keys(nodes);
    assert forall|k: int, l: int| 0 <= k < ks.len() && 0 <= l < ks.len() && k != l implies ks[k] != ks[l] by {
        if ks[k] == ks[l] {
            let x = nodes[k];
            let y = nodes[l];
            assert(x.old =~= (x.old + x.next).take(t.len() as int));
            assert(y.old =~= (y.old + y.next).take(t.len() as int));
            assert(x.next =~= (x.old + x.next).skip(t.len() as int));
            assert(y.next =~= (y.old + y.next).skip(t.len() as int));
            if k < l {
                assert(nodes[k].old != nodes[l].old || nodes[k].next != nodes[l].next);
            } else {
                assert(nodes[l].old != nodes[k].old || nodes[l].next != nodes[k].next);
            }
        }
    }
    assert forall|k: int| 0 <= k < ks.len() implies (#[trigger] ks[k]).len() == 2 * t.len() by {
        assert(sized(t, nodes[k]));
    }
    distinct_bound(ks, 2 * t.len());
}

fn clone_bits(b: &Vec<bool>) -> (r: Vec<bool>)
    ensures
        r@ == b@,
{
    let mut out: Vec<bool> = Vec::new();
    let mut i: usize = 0;
    while i < b.len()
        invariant
            i <= b@.len(),
            out@ == b@.take(i as int),
        decreases b.len() - i,
    {
        out.push(b[i]);
        i += 1;
        assert(out@ =~= b@.take(i as int));
    }
    assert(out@ =~= b@);
    out
}

fn no_bits(n: usize) -> (r: Vec<bool>)
    ensures
        r@.len() == n,
        forall|i: int| 0 <= i < n ==> !#[trigger] r@[i],
{
    let mut out: Vec<bool> = Vec::new();
    while out.len() < n
        invariant
            out@.len() <= n,
            forall|i: int| 0 <= i < out@.len() ==> !#[trigger] out@[i],
        decreases n - out.len(),
    {
        out.push(false);
    }
    out
}

fn same_bits(a: &Vec<bool>, b: &Vec<bool>) -> (r: bool)
    ensures
        r == (a@ == b@),
{
    if a.len() != b.len() {
        return false;
    }
    let mut i: usize = 0;
    while i < a.len()
        invariant
            i <= a@.len(),
            a@.len() == b@.len(),
            forall|k: int| 0 <= k < i ==> a@[k] == b@[k],
        decreases a.len() - i,
    {
        if a[i] != b[i] {
            return false;
        }
        i += 1;
    }
    assert(a@ =~= b@);
    true
}

fn clone_ids(b: &Vec<usize>) -> (r: Vec<usize>)
    ensures
        r@ == b@,
{
    let mut out: Vec<usize> = Vec::new();
    let mut i: usize = 0;
    while i < b.len()
        invariant
            i <= b@.len(),
            out@ == b@.take(i as int),
        decreases b.len() - i,
    {
        out.push(b[i]);
        i += 1;
        assert(out@ =~= b@.take(i as int));
    }
    assert(out@ =~= b@);
    out
}

fn clone_node(n: &GNode) -> (r: GNode)
    ensures
        r@ == n@,
{
    GNode {
        init: n.init,
        incoming: clone_ids(&n.incoming),
        new: clone_bits(&n.new),
        old: clone_bits(&n.old),
        next: clone_bits(&n.next),
    }
}

/// The first formula that is still to be expanded.
fn pending(n: &GNode) -> (r: Option<usize>)
    ensures
        match r {
            Some(x) => x < n.new@.len() && n.new@[x as int],
            None => forall|x: int| 0 <= x < n.new@.len() ==> !#[trigger] n.new@[x],
        },
{
    let mut i: usize = 0;
    while i < n.new.len()
        invariant
            i <= n.new@.len(),
            forall|x: int| 0 <= x < i ==> !#[trigger] n.new@[x],
        decreases n.new.len() - i,
    {
        if n.new[i] {
            return Some(i);
        }
        i += 1;
    }
    None
}

/// The node with `x` among the formulas to expand, unless it has been expanded.
spec fn asked(n: GN, x: int) -> GN {
    if n.old[x] {
        n
    } else {
        GN { new: n.new.update(x, true), ..n }
    }
}

/// The node with `x` among the formulas that have to hold next.
spec fn later(n: GN, x: int) -> GN {
    GN { next: n.next.update(x, true), ..n }
}

fn ask(n: &mut GNode, x: usize)
    requires
        x < old(n).old@.len(),
        x < old(n).new@.len(),
    ensures
        final(n)@ == asked(old(n)@, x as int),
{
    if !n.old[x] {
        n.new.set(x, true);
    }
}

/// Expanding makes the effort smaller.
proof fn effort_drops(t: Seq<SubM>, n: GN, m: GN, cur: int)
    requires
        sized(t, n),
        sized(t, m),
        0 <= cur < t.len(),
        n.new[cur],
        (t[cur] is True && m.old == n.old && m.new == n.new.update(cur, false)) || (!n.old[cur]
            && m.old == n.old.update(cur, true)),
    ensures
        effort(t, m) < effort(t, n),
{
    ones_bound(n.old);
    ones_bound(m.old);
    ones_bound(trivial(t, m));
    ones_bound(trivial(t, n));
    let l = t.len() as int;
    if t[cur] is True && m.old == n.old && m.new == n.new.update(cur, false) {
        assert(trivial(t, n) =~= trivial(t, m).update(cur, true));
        ones_set(trivial(t, m), cur);
    } else {
        ones_set(n.old, cur);
        let k = ones(n.old) as int;
        assert((l + 1) * (l - k) == (l + 1) * (l - (k + 1)) + (l + 1)) by (nonlinear_arith);
        assert((l + 1) * (l - (k + 1)) >= 0) by (nonlinear_arith)
            requires
                l >= 0,
                k + 1 <= l,
        ;
    }
}

/// Moving on keeps what was settled settled.
proof fn settled_kept(t: Seq<SubM>, n: GN, m: GN, x: int)
    requires
        sized(t, n),
        sized(t, m),
        tab_ok(t),
        0 <= x < t.len(),
        settled(t, n, x),
        forall|y: int| 0 <= y < t.len() && listed(t, n, y) ==> #[trigger] listed(t, m, y),
        forall|y: int| 0 <= y < t.len() && n.next[y] ==> #[trigger] m.next[y],
    ensures
        settled(t, m, x),
{
    assert(parts_before(t[x], x));
    match t[x] {
        SubM::And(a, b) => {
            assert(listed(t, m, a) && listed(t, m, b));
        },
        SubM::Or(a, b) => {
            assert(listed(t, n, a) ==> listed(t, m, a));
            assert(listed(t, n, b) ==> listed(t, m, b));
        },
        SubM::X(a) => {
            assert(m.next[a]);
        },
        SubM::U(a, b) => {
            assert(listed(t, n, a) ==> listed(t, m, a));
            assert(listed(t, n, b) ==> listed(t, m, b));
            assert(n.next[x] ==> m.next[x]);
        },
        SubM::R(a, b) => {
            assert(listed(t, n, a) ==> listed(t, m, a));
            assert(listed(t, n, b) ==> listed(t, m, b));
            assert(n.next[x] ==> m.next[x]);
        },
        _ => {},
    }
}

/// A step of the expansion: `m` is what `n` becomes when `cur` is expanded.
spec fn expands(t: Seq<SubM>, n: GN, m: GN, cur: int) -> bool {
    &&& sized(t, m)
    &&& m.init == n.init
    &&& m.incoming == n.incoming
    &&& m.old == n.old.update(cur, true)
    &&& settled(t, m, cur)
    &&& forall|x: int| 0 <= x < t.len() && x != cur && n.new[x] ==> #[trigger] m.new[x]
    &&& forall|x: int| 0 <= x < t.len() && n.next[x] ==> #[trigger] m.next[x]
    &&& forall|x: int| 0 <= x < t.len() && m.old[x] ==> !#[trigger] m.new[x]
}

proof fn expands_ok(t: Seq<SubM>, nodes: Seq<GN>, root: int, n: GN, m: GN, cur: int)
    requires
        tab_ok(t),
        gn_ok(t, n),
        fed(t, nodes, root, n),
        0 <= cur < t.len(),
        0 <= root < t.len(),
        n.new[cur],
        expands(t, n, m, cur),
        !(t[cur] is True),
    ensures
        gn_ok(t, m),
        fed(t, nodes, root, m),
        effort(t, m) < effort(t, n),
{
    assert forall|y: int| 0 <= y < t.len() && listed(t, n, y) implies #[trigger] listed(t, m, y) by {
        if n.new[y] && y != cur {
            assert(m.new[y]);
        }
    }
    assert forall|x: int| 0 <= x < t.len() && #[trigger] m.old[x] implies settled(t, m, x) && !m.new[x] by {
        if x != cur {
            assert(n.old[x]);
            settled_kept(t, n, m, x);
        }
        assert(!m.new[x]);
    }
    assert(!n.old[cur]) by {
        if n.old[cur] {
            assert(!n.new[cur]);
        }
    }
    effort_drops(t, n, m, cur);
    assert forall|k: int, x: int| 0 <= k < m.incoming.len() && 0 <= x < t.len()
        && nodes[#[trigger] m.incoming[k] as int].next[x] implies #[trigger] listed(t, m, x) by {
        assert(listed(t, n, x));
    }
}

/// The parts of a step that meet the same words.
proof fn expands_meets(t: Seq<SubM>, n: GN, m: GN, cur: int, w: Word, i: nat)
    requires
        tab_ok(t),
        gn_ok(t, n),
        0 <= cur < t.len(),
        n.new[cur],
        meets(t, n, w, i),
        expands(t, n, m, cur),
        forall|x: int| 0 <= x < t.len() && #[trigger] m.new[x] && !n.new[x] ==> sat(t, x, w, i),
        forall|x: int| 0 <= x < t.len() && #[trigger] m.next[x] && !n.next[x] ==> sat(
            t,
            x,
            w,
            i + 1,
        ),
        t[cur] matches SubM::U(a, b) ==> sat(t, b, w, i) ==> listed(t, m, b),
    ensures
        meets(t, m, w, i),
{
    assert forall|x: int| 0 <= x < t.len() && #[trigger] m.old[x] implies sat(t, x, w, i) by {
        if x != cur {
            assert(n.old[x]);
        }
    }
    assert forall|x: int| 0 <= x < t.len() && #[trigger] m.new[x] implies sat(t, x, w, i) by {
        if n.new[x] {}
    }
    assert forall|x: int| 0 <= x < t.len() && #[trigger] m.next[x] implies sat(t, x, w, i + 1) by {
        if n.next[x] {}
    }
    assert forall|x: int| 0 <= x < t.len() && #[trigger] m.old[x] implies (
    t[x] matches SubM::U(a, b) ==> sat(t, b, w, i) ==> listed(t, m, b)) by {
        if x != cur {
            assert(n.old[x]);
            assert(parts_before(t[x], x));
            if t[x] is U {
                let b = t[x]->U_1;
                if sat(t, b, w, i) {
                    assert(listed(t, n, b));
                    if n.new[b] && b != cur {
                        assert(m.new[b]);
                    }
                }
            }
        }
    }
}

proof fn covered_push(t: Seq<SubM>, s: Seq<GN>, m: GN, src: int, w: Word, i: nat)
    ensures
        covered(t, s.push(m), src, w, i) == (covered(t, s, src, w, i) || (comes(m, src) && meets(
            t,
            m,
            w,
            i,
        ))),
{
    let q = s.push(m);
    if covered(t, s, src, w, i) {
        let k = choose|k: int|
            0 <= k < s.len() && comes(#[trigger] s[k], src) && meets(t, s[k], w, i);
        assert(q[k] == s[k]);
    }
    if comes(m, src) && meets(t, m, w, i) {
        assert(q[s.len() as int] == m);
    }
    if covered(t, q, src, w, i) {
        let k = choose|k: int|
            0 <= k < q.len() && comes(#[trigger] q[k], src) && meets(t, q[k], w, i);
        if k < s.len() {
            assert(s[k] == q[k]);
        }
    }
}

proof fn load_push(t: Seq<SubM>, s: Seq<GN>, m: GN)
    ensures
        load(t, s.push(m)) == load(t, s) + p3(effort(t, m)),
{
    assert(s.push(m).drop_last() =~= s);
}

/// Taking a node from the stack and putting back what it becomes keeps the tableau in order.
proof fn tableau_step(
    t: Seq<SubM>,
    nodes: Seq<GN>,
    rest: Seq<GN>,
    n: GN,
    ms: Seq<GN>,
    root: int,
)
    requires
        tableau(t, nodes, rest.push(n), root),
        ms.len() <= 2,
        forall|k: int|
            0 <= k < ms.len() ==> gn_ok(t, #[trigger] ms[k]) && fed(t, nodes, root, ms[k]) && effort(
                t,
                ms[k],
            ) < effort(t, n) && ms[k].init == n.init && ms[k].incoming == n.incoming,
        forall|w: Word, i: nat| #[trigger]
            meets(t, n, w, i) ==> exists|k: int| 0 <= k < ms.len() && meets(t, #[trigger] ms[k], w, i),
    ensures
        tableau(t, nodes, rest + ms, root),
        load(t, rest + ms) < load(t, rest.push(n)),
{
    let s = rest + ms;
    assert forall|k: int| 0 <= k < s.len() implies gn_ok(t, #[trigger] s[k]) && fed(
        t,
        nodes,
        root,
        s[k],
    ) by {
        if k < rest.len() {
            assert(rest.push(n)[k] == s[k]);
        } else {
            assert(ms[k - rest.len()] == s[k]);
        }
    }
    assert forall|src: int, w: Word, i: nat| -1 <= src < nodes.len() && wants(
        t,
        nodes,
        root,
        src,
        w,
        i,
    ) implies #[trigger] covered(t, nodes, src, w, i) || covered(t, s, src, w, i) by {
        if !covered(t, nodes, src, w, i) {
            assert(covered(t, rest.push(n), src, w, i));
            covered_push(t, rest, n, src, w, i);
            if covered(t, rest, src, w, i) {
                let k = choose|k: int|
                    0 <= k < rest.len() && comes(#[trigger] rest[k], src) && meets(t, rest[k], w, i);
                assert(s[k] == rest[k]);
            } else {
                let k = choose|k: int| 0 <= k < ms.len() && meets(t, #[trigger] ms[k], w, i);
                assert(s[rest.len() + k] == ms[k]);
                assert(comes(ms[k], src)) by {
                    if src >= 0 {
                        let j = choose|j: int|
                            0 <= j < n.incoming.len() && #[trigger] n.incoming[j] == src;
                        assert(ms[k].incoming[j] == src);
                    }
                }
            }
        }
    }
    load_push(t, rest, n);
    let e = effort(t, n);
    if ms.len() == 0 {
        assert(s =~= rest);
        p3_mono(0, e);
    } else if ms.len() == 1 {
        assert(s =~= rest.push(ms[0]));
        load_push(t, rest, ms[0]);
        p3_mono(effort(t, ms[0]), (e - 1) as nat);
        p3_mono(0, (e - 1) as nat);
    } else {
        assert(s =~= rest.push(ms[0]).push(ms[1]));
        load_push(t, rest, ms[0]);
        load_push(t, rest.push(ms[0]), ms[1]);
        p3_mono(effort(t, ms[0]), (e - 1) as nat);
        p3_mono(effort(t, ms[1]), (e - 1) as nat);
        p3_mono(0, (e - 1) as nat);
    }
}

/// Whether the opposite of a literal has been expanded in the node.
fn clashes(t: &Vec<Sub>, n: &GNode, e: &FExpr, positive: bool) -> (r: bool)
    requires
        n.old@.len() == t@.len(),
    ensures
        r == exists|y: int|
            0 <= y < t@.len() && #[trigger] n.old@[y] && tab_of(t@)[y] == (if positive {
                SubM::NAtom(e.model())
            } else {
                SubM::Atom(e.model())
            }),
{
    let ghost want = if positive {
        SubM::NAtom(e.model())
    } else {
        SubM::Atom(e.model())
    };
    let mut y: usize = 0;
    while y < t.len()
        invariant
            y <= t@.len(),
            n.old@.len() == t@.len(),
            want == if positive {
                SubM::NAtom(e.model())
            } else {
                SubM::Atom(e.model())
            },
            forall|k: int| 0 <= k < y && #[trigger] n.old@[k] ==> tab_of(t@)[k] != want,
        decreases t.len() - y,
    {
        if n.old[y] {
            let hit = match &t[y] {
                Sub::NAtom(f) => positive && f.same(e),
                Sub::Atom(f) => !positive && f.same(e),
                _ => false,
            };
            if hit {
                assert(tab_of(t@)[y as int] == want);
                return true;
            }
            assert(tab_of(t@)[y as int] != want);
        }
        y += 1;
    }
    false
}

spec fn results_ok(t: Seq<SubM>, nodes: Seq<GN>, root: int, n: GN, ms: Seq<GN>) -> bool {
    &&& ms.len() <= 2
    &&& forall|k: int|
        0 <= k < ms.len() ==> gn_ok(t, #[trigger] ms[k]) && fed(t, nodes, root, ms[k]) && effort(
            t,
            ms[k],
        ) < effort(t, n) && ms[k].init == n.init && ms[k].incoming == n.incoming
    &&& forall|w: Word, i: nat| #[trigger]
        meets(t, n, w, i) ==> exists|k: int| 0 <= k < ms.len() && meets(t, #[trigger] ms[k], w, i)
}

proof fn asked_facts(t: Seq<SubM>, n: GN, x: int)
    requires
        sized(t, n),
        0 <= x < t.len(),
        forall|y: int| 0 <= y < t.len() && n.old[y] ==> !#[trigger] n.new[y],
    ensures
        sized(t, asked(n, x)),
        listed(t, asked(n, x), x),
        asked(n, x).old == n.old,
        asked(n, x).next == n.next,
        asked(n, x).init == n.init,
        asked(n, x).incoming == n.incoming,
        forall|y: int| 0 <= y < t.len() && n.new[y] ==> #[trigger] asked(n, x).new[y],
        forall|y: int| 0 <= y < t.len() && #[trigger] asked(n, x).new[y] ==> n.new[y] || y == x,
        forall|y: int| 0 <= y < t.len() && n.old[y] ==> !#[trigger] asked(n, x).new[y],
        forall|y: int| 0 <= y < t.len() && listed(t, n, y) ==> #[trigger] listed(t, asked(n, x), y),
{
}

proof fn one_result(
    t: Seq<SubM>,
    nodes: Seq<GN>,
    root: int,
    n: GN,
    m: GN,
    cur: int,
)
    requires
        tab_ok(t),
        gn_ok(t, n),
        fed(t, nodes, root, n),
        0 <= root < t.len(),
        0 <= cur < t.len(),
        n.new[cur],
        expands(t, n, m, cur),
        !(t[cur] is True),
        forall|w: Word, i: nat| #[trigger] meets(t, n, w, i) ==> meets(t, m, w, i),
    ensures
        results_ok(t, nodes, root, n, seq![m]),
{
    expands_ok(t, nodes, root, n, m, cur);
    assert forall|w: Word, i: nat| #[trigger] meets(t, n, w, i) implies exists|k: int|
        0 <= k < seq![m].len() && meets(t, #[trigger] seq![m][k], w, i) by {
        assert(meets(t, seq![m][0], w, i));
    }
}

proof fn two_results(
    t: Seq<SubM>,
    nodes: Seq<GN>,
    root: int,
    n: GN,
    m: GN,
    l: GN,
    cur: int,
)
    requires
        tab_ok(t),
        gn_ok(t, n),
        fed(t, nodes, root, n),
        0 <= root < t.len(),
        0 <= cur < t.len(),
        n.new[cur],
        expands(t, n, m, cur),
        expands(t, n, l, cur),
        !(t[cur] is True),
        forall|w: Word, i: nat| #[trigger]
            meets(t, n, w, i) ==> meets(t, m, w, i) || meets(t, l, w, i),
    ensures
        results_ok(t, nodes, root, n, seq![m, l]),
{
    expands_ok(t, nodes, root, n, m, cur);
    expands_ok(t, nodes, root, n, l, cur);
    let s = seq![m, l];
    assert forall|w: Word, i: nat| #[trigger] meets(t, n, w, i) implies exists|k: int|
        0 <= k < s.len() && meets(t, #[trigger] s[k], w, i) by {
        assert(s[0] == m && s[1] == l);
        if meets(t, m, w, i) {
            assert(meets(t, s[0], w, i));
        } else {
            assert(meets(t, s[1], w, i));
        }
    }
}

/// Expands one formula of a node.
fn expand(
    t: &Vec<Sub>,
    mut n: GNode,
    cur: usize,
    Ghost(nodes): Ghost<Seq<GN>>,
    Ghost(root): Ghost<int>,
) -> (r: Vec<GNode>)
    requires
        tab_ok(tab_of(t@)),
        gn_ok(tab_of(t@), n@),
        fed(tab_of(t@), nodes, root, n@),
        0 <= root < t@.len(),
        cur < t@.len(),
        n@.new[cur as int],
    ensures
        results_ok(tab_of(t@), nodes, root, n@, gns(r@)),
{
    let ghost tt = tab_of(t@);
    let ghost n0 = n@;
    let ghost c = cur as int;
    let mut out: Vec<GNode> = Vec::new();
    proof {
        assert(parts_before(tt[c], c));
        assert(!n0.old[c]) by {
            if n0.old[c] {
                assert(!n0.new[c]);
            }
        }
        assert forall|w: Word, i: nat| #[trigger] meets(tt, n0, w, i) implies sat(tt, c, w, i) by {
            assert(n0.new[c]);
        }
    }
    n.new.set(cur, false);
    match &t[cur] {
        Sub::False => {
            assert forall|w: Word, i: nat| !#[trigger] meets(tt, n0, w, i) by {
                sat_true(tt, c, w, i);
            }
            out
        },
        Sub::True => {
            let ghost m = n@;
            out.push(n);
            proof {
                assert(gns(out@) =~= seq![m]);
                assert forall|y: int| 0 <= y < tt.len() && listed(tt, n0, y) implies #[trigger] listed(tt, m, y) by {}
                assert forall|x: int| 0 <= x < tt.len() && #[trigger] m.old[x] implies settled(tt, m, x)
                    && !m.new[x] by {
                    assert(n0.old[x]);
                    settled_kept(tt, n0, m, x);
                }
                effort_drops(tt, n0, m, c);
                assert forall|k: int| 0 <= k < m.incoming.len() implies (#[trigger] m.incoming[k])
                    < nodes.len() by {
                    assert(n0.incoming[k] == m.incoming[k]);
                }
                assert forall|k: int, x: int| 0 <= k < m.incoming.len() && 0 <= x < tt.len()
                    && nodes[#[trigger] m.incoming[k] as int].next[x] implies #[trigger] listed(tt, m, x) by {
                    assert(n0.incoming[k] == m.incoming[k]);
                    assert(listed(tt, n0, x));
                }
                assert forall|w: Word, i: nat| #[trigger] meets(tt, n0, w, i) implies exists|k: int|
                    0 <= k < gns(out@).len() && meets(tt, #[trigger] gns(out@)[k], w, i) by {
                    assert(meets(tt, m, w, i)) by {
                        assert forall|x: int| 0 <= x < tt.len() && #[trigger] m.new[x] implies sat(
                            tt,
                            x,
                            w,
                            i,
                        ) by {
                            assert(n0.new[x]);
                        }
                        assert forall|x: int| 0 <= x < tt.len() && #[trigger] m.old[x] implies (
                        tt[x] matches SubM::U(a, b) ==> sat(tt, b, w, i) ==> listed(tt, m, b)) by {
                            assert(n0.old[x]);
                            assert(parts_before(tt[x], x));
                        }
                    }
                    assert(gns(out@)[0] == m);
                }
            }
            out
        },
        Sub::Atom(e) => {
            if clashes(t, &n, e, true) {
                assert forall|w: Word, i: nat| !#[trigger] meets(tt, n0, w, i) by {
                    sat_true(tt, c, w, i);
                    let y = choose|y: int|
                        0 <= y < t@.len() && #[trigger] n.old@[y] && tt[y] == SubM::NAtom(e.model());
                    assert(n0.old[y] == n.old@[y]);
                    sat_true(tt, y, w, i);
                }
                return out;
            }
            n.old.set(cur, true);
            let ghost m = n@;
            out.push(n);
            proof {
                assert(gns(out@) =~= seq![m]);
                assert(expands(tt, n0, m, c));
                assert forall|w: Word, i: nat| #[trigger] meets(tt, n0, w, i) implies meets(tt, m, w, i) by {
                    expands_meets(tt, n0, m, c, w, i);
                }
                one_result(tt, nodes, root, n0, m, c);
            }
            out
        },
        Sub::NAtom(e) => {
            if clashes(t, &n, e, false) {
                assert forall|w: Word, i: nat| !#[trigger] meets(tt, n0, w, i) by {
                    sat_true(tt, c, w, i);
                    let y = choose|y: int|
                        0 <= y < t@.len() && #[trigger] n.old@[y] && tt[y] == SubM::Atom(e.model());
                    assert(n0.old[y] == n.old@[y]);
                    sat_true(tt, y, w, i);
                }
                return out;
            }
            n.old.set(cur, true);
            let ghost m = n@;
            out.push(n);
            proof {
                assert(gns(out@) =~= seq![m]);
                assert(expands(tt, n0, m, c));
                assert forall|w: Word, i: nat| #[trigger] meets(tt, n0, w, i) implies meets(tt, m, w, i) by {
                    expands_meets(tt, n0, m, c, w, i);
                }
                one_result(tt, nodes, root, n0, m, c);
            }
            out
        },
        Sub::And(a, b) => {
            n.old.set(cur, true);
            let ghost m0 = n@;
            ask(&mut n, *a);
            let ghost m1 = n@;
            ask(&mut n, *b);
            let ghost m = n@;
            out.push(n);
            proof {
                assert(gns(out@) =~= seq![m]);
                asked_facts(tt, m0, *a as int);
                asked_facts(tt, m1, *b as int);
                assert(listed(tt, m, *a as int));
                assert(expands(tt, n0, m, c)) by {
                    assert forall|x: int| 0 <= x < tt.len() && x != c && n0.new[x] implies #[trigger] m.new[x] by {
                        assert(m0.new[x]);
                        assert(m1.new[x]);
                    }
                }
                assert forall|w: Word, i: nat| #[trigger] meets(tt, n0, w, i) implies meets(tt, m, w, i) by {
                    sat_true(tt, c, w, i);
                    assert forall|x: int| 0 <= x < tt.len() && #[trigger] m.new[x] && !n0.new[x] implies sat(
                        tt,
                        x,
                        w,
                        i,
                    ) by {
                        assert(m1.new[x] || x == *b);
                        if m1.new[x] {
                            assert(m0.new[x] || x == *a);
                        }
                    }
                    expands_meets(tt, n0, m, c, w, i);
                }
                one_result(tt, nodes, root, n0, m, c);
            }
            out
        },
        Sub::X(a) => {
            n.old.set(cur, true);
            n.next.set(*a, true);
            let ghost m = n@;
            out.push(n);
            proof {
                assert(gns(out@) =~= seq![m]);
                assert(expands(tt, n0, m, c));
                assert forall|w: Word, i: nat| #[trigger] meets(tt, n0, w, i) implies meets(tt, m, w, i) by {
                    sat_true(tt, c, w, i);
                    expands_meets(tt, n0, m, c, w, i);
                }
                one_result(tt, nodes, root, n0, m, c);
            }
            out
        },
        Sub::Or(a, b) => {
            n.old.set(cur, true);
            let ghost m0 = n@;
            let mut n2 = clone_node(&n);
            ask(&mut n, *a);
            ask(&mut n2, *b);
            let ghost m = n@;
            let ghost l = n2@;
            out.push(n);
            out.push(n2);
            proof {
                assert(gns(out@) =~= seq![m, l]);
                asked_facts(tt, m0, *a as int);
                asked_facts(tt, m0, *b as int);
                assert(expands(tt, n0, m, c)) by {
                    assert forall|x: int| 0 <= x < tt.len() && x != c && n0.new[x] implies #[trigger] m.new[x] by {
                        assert(m0.new[x]);
                    }
                }
                assert(expands(tt, n0, l, c)) by {
                    assert forall|x: int| 0 <= x < tt.len() && x != c && n0.new[x] implies #[trigger] l.new[x] by {
                        assert(m0.new[x]);
                    }
                }
                assert forall|w: Word, i: nat| #[trigger] meets(tt, n0, w, i) implies meets(tt, m, w, i)
                    || meets(tt, l, w, i) by {
                    sat_true(tt, c, w, i);
                    if sat(tt, *a as int, w, i) {
                        expands_meets(tt, n0, m, c, w, i);
                    } else {
                        expands_meets(tt, n0, l, c, w, i);
                    }
                }
                two_results(tt, nodes, root, n0, m, l, c);
            }
            out
        },
        Sub::U(a, b) => {
            n.old.set(cur, true);
            let ghost m0 = n@;
            let mut n2 = clone_node(&n);
            ask(&mut n, *a);
            let ghost m1 = n@;
            n.next.set(cur, true);
            ask(&mut n2, *b);
            let ghost m = n@;
            let ghost l = n2@;
            out.push(n);
            out.push(n2);
            proof {
                assert(gns(out@) =~= seq![m, l]);
                asked_facts(tt, m0, *a as int);
                asked_facts(tt, m0, *b as int);
                assert(listed(tt, m, *a as int) == listed(tt, m1, *a as int));
                assert(expands(tt, n0, m, c)) by {
                    assert forall|x: int| 0 <= x < tt.len() && x != c && n0.new[x] implies #[trigger] m.new[x] by {
                        assert(m0.new[x]);
                        assert(m1.new[x]);
                    }
                    assert forall|x: int| 0 <= x < tt.len() && m.old[x] implies !#[trigger] m.new[x] by {
                        assert(!m1.new[x]);
                    }
                }
                assert(expands(tt, n0, l, c)) by {
                    assert forall|x: int| 0 <= x < tt.len() && x != c && n0.new[x] implies #[trigger] l.new[x] by {
                        assert(m0.new[x]);
                    }
                }
                assert forall|w: Word, i: nat| #[trigger] meets(tt, n0, w, i) implies meets(tt, m, w, i)
                    || meets(tt, l, w, i) by {
                    sat_true(tt, c, w, i);
                    if sat(tt, *b as int, w, i) {
                        expands_meets(tt, n0, l, c, w, i);
                    } else {
                        assert forall|x: int| 0 <= x < tt.len() && #[trigger] m.new[x] && !n0.new[x] implies sat(
                            tt,
                            x,
                            w,
                            i,
                        ) by {
                            assert(m1.new[x]);
                        }
                        expands_meets(tt, n0, m, c, w, i);
                    }
                }
                two_results(tt, nodes, root, n0, m, l, c);
            }
            out
        },
        Sub::R(a, b) => {
            n.old.set(cur, true);
            let ghost m0 = n@;
            let mut n2 = clone_node(&n);
            ask(&mut n, *b);
            let ghost m1 = n@;
            n.next.set(cur, true);
            ask(&mut n2, *a);
            let ghost l1 = n2@;
            ask(&mut n2, *b);
            let ghost m = n@;
            let ghost l = n2@;
            out.push(n);
            out.push(n2);
            proof {
                assert(gns(out@) =~= seq![m, l]);
                asked_facts(tt, m0, *b as int);
                asked_facts(tt, m0, *a as int);
                asked_facts(tt, l1, *b as int);
                assert(listed(tt, m, *b as int) == listed(tt, m1, *b as int));
                assert(listed(tt, l, *a as int));
                assert(expands(tt, n0, m, c)) by {
                    assert forall|x: int| 0 <= x < tt.len() && x != c && n0.new[x] implies #[trigger] m.new[x] by {
                        assert(m0.new[x]);
                        assert(m1.new[x]);
                    }
                    assert forall|x: int| 0 <= x < tt.len() && m.old[x] implies !#[trigger] m.new[x] by {
                        assert(!m1.new[x]);
                    }
                }
                assert(expands(tt, n0, l, c)) by {
                    assert forall|x: int| 0 <= x < tt.len() && x != c && n0.new[x] implies #[trigger] l.new[x] by {
                        assert(m0.new[x]);
                        assert(l1.new[x]);
                    }
                }
                assert forall|w: Word, i: nat| #[trigger] meets(tt, n0, w, i) implies meets(tt, m, w, i)
                    || meets(tt, l, w, i) by {
                    sat_true(tt, c, w, i);
                    if sat(tt, *a as int, w, i) {
                        assert forall|x: int| 0 <= x < tt.len() && #[trigger] l.new[x] && !n0.new[x] implies sat(
                            tt,
                            x,
                            w,
                            i,
                        ) by {
                            assert(l1.new[x] || x == *b);
                            if l1.new[x] {
                                assert(m0.new[x] || x == *a);
                            }
                        }
                        expands_meets(tt, n0, l, c, w, i);
                    } else {
                        assert forall|x: int| 0 <= x < tt.len() && #[trigger] m.new[x] && !n0.new[x] implies sat(
                            tt,
                            x,
                            w,
                            i,
                        ) by {
                            assert(m1.new[x]);
                        }
                        expands_meets(tt, n0, m, c, w, i);
                    }
                }
                two_results(tt, nodes, root, n0, m, l, c);
            }
            out
        },
    }
}

/// A state-labelled generalized Büchi automaton.
pub struct Lgba {
    /// For each node the literals that have to hold there.
    pub labels: Vec<Vec<Ltl>>,
    /// The nodes where a run can start.
    pub initial: Vec<usize>,
    /// For each node its successors.
    pub edges: Vec<Vec<usize>>,
    /// The sets of nodes that a run has to visit again and again.
    pub accepting: Vec<Vec<usize>>,
}

/// The literals hold at a position.
pub open spec fn lits_hold(l: Seq<Ltl>, w: Word, i: nat) -> bool {
    forall|k: int| 0 <= k < l.len() ==> nn_sat((#[trigger] l[k]).model(), w)(i)
}

impl Lgba {
    /// The sequence of nodes is a run on the word.
    pub open spec fn runs(&self, w: Word, run: spec_fn(nat) -> usize) -> bool {
        &&& self.initial@.contains(run(0))
        &&& forall|i: nat| #[trigger]
            run(i) < self.labels@.len() && lits_hold(self.labels@[run(i) as int]@, w, i)
        &&& forall|i: nat| #[trigger] self.moves(run, i)
    }

    /// The run follows an edge after position `i`.
    pub open spec fn moves(&self, run: spec_fn(nat) -> usize, i: nat) -> bool {
        self.edges@[run(i) as int]@.contains(run((i + 1) as nat))
    }

    /// The run visits the set at `i` or later.
    pub open spec fn visits_from(&self, s: int, run: spec_fn(nat) -> usize, i: nat) -> bool {
        exists|j: nat| i <= j && self.accepting@[s]@.contains(#[trigger] run(j))
    }

    /// The run visits the set again and again.
    pub open spec fn visits(&self, s: int, run: spec_fn(nat) -> usize) -> bool {
        forall|i: nat| #[trigger] self.visits_from(s, run, i)
    }

    /// Some run on the word visits every accepting set again and again.
    pub open spec fn accepts(&self, w: Word) -> bool {
        exists|run: spec_fn(nat) -> usize| #[trigger]
            self.runs(w, run) && forall|s: int|
                0 <= s < self.accepting@.len() ==> #[trigger] self.visits(s, run)
    }

    /// A property of every atom of the labels.
    pub open spec fn atoms_in(&self, p: spec_fn(FE) -> bool) -> bool {
        forall|q: int, k: int|
            #![trigger self.labels@[q]@[k]]
            0 <= q < self.labels@.len() && 0 <= k < self.labels@[q]@.len() ==> nn_atoms(
                self.labels@[q]@[k].model(),
                p,
            )
    }

    /// All indices are in range.
    pub open spec fn wf(&self) -> bool {
        &&& self.edges@.len() == self.labels@.len()
        &&& forall|k: int| 0 <= k < self.initial@.len() ==> (#[trigger] self.initial@[k])
            < self.labels@.len()
        &&& forall|q: int, k: int|
            0 <= q < self.edges@.len() && 0 <= k < self.edges@[q]@.len() ==> (
            #[trigger] self.edges@[q]@[k]) < self.labels@.len()
        &&& forall|s: int, k: int|
            0 <= s < self.accepting@.len() && 0 <= k < self.accepting@[s]@.len() ==> (
            #[trigger] self.accepting@[s]@[k]) < self.labels@.len()
        &&& self.accepting@.len() > 0
        &&& forall|q: int, k: int|
            0 <= q < self.labels@.len() && 0 <= k < self.labels@[q]@.len() ==> is_literal(
                (#[trigger] self.labels@[q]@[k]).model(),
            )
    }
}

/// The formula is an atom or the negation of one.
pub open spec fn is_literal(f: NN) -> bool {
    f is Atom || f is NAtom
}

/// Completes a node: merges it with an equal one, or adds it with its successor.
proof fn complete_merge(
    t: Seq<SubM>,
    nodes: Seq<GN>,
    nodes2: Seq<GN>,
    rest: Seq<GN>,
    n: GN,
    k: int,
    root: int,
)
    requires
        tableau(t, nodes, rest.push(n), root),
        forall|x: int| 0 <= x < t.len() ==> !#[trigger] n.new[x],
        0 <= k < nodes.len(),
        nodes[k].old == n.old,
        nodes[k].next == n.next,
        nodes2 == nodes.update(
            k,
            GN {
                init: nodes[k].init || n.init,
                incoming: nodes[k].incoming + n.incoming,
                ..nodes[k]
            },
        ),
    ensures
        tableau(t, nodes2, rest, root),
        load(t, rest) < load(t, rest.push(n)),
{
    let s0 = rest.push(n);
    assert(s0[rest.len() as int] == n);
    assert(gn_ok(t, n) && fed(t, nodes, root, n));
    assert(gn_ok(t, nodes[k]) && fed(t, nodes, root, nodes[k]));
    let m = nodes2[k];
    assert forall|j: int| 0 <= j < nodes.len() implies (#[trigger] nodes2[j]).old == nodes[j].old
        && nodes2[j].next == nodes[j].next && nodes2[j].new == nodes[j].new by {}
    assert(n.new =~= nodes[k].new) by {
        assert forall|x: int| 0 <= x < t.len() implies n.new[x] == #[trigger] nodes[k].new[x] by {
            assert(!n.new[x]);
        }
    }
    assert(m.new == n.new);
    assert(fed(t, nodes2, root, m)) by {
        assert forall|j: int| 0 <= j < m.incoming.len() implies (#[trigger] m.incoming[j]) < nodes2.len() by {
            if j < nodes[k].incoming.len() {
                assert(m.incoming[j] == nodes[k].incoming[j]);
            } else {
                assert(m.incoming[j] == n.incoming[j - nodes[k].incoming.len()]);
            }
        }
        assert forall|j: int, x: int| 0 <= j < m.incoming.len() && 0 <= x < t.len()
            && nodes2[#[trigger] m.incoming[j] as int].next[x] implies #[trigger] listed(t, m, x) by {
            if j < nodes[k].incoming.len() {
                assert(m.incoming[j] == nodes[k].incoming[j]);
                assert(listed(t, nodes[k], x));
            } else {
                assert(m.incoming[j] == n.incoming[j - nodes[k].incoming.len()]);
                assert(listed(t, n, x));
            }
        }
        if m.init {
            assert(listed(t, nodes[k], root) || listed(t, n, root));
        }
    }
    assert forall|g: GN| #[trigger] fed(t, nodes, root, g) implies fed(t, nodes2, root, g) by {
        assert forall|j: int, x: int| 0 <= j < g.incoming.len() && 0 <= x < t.len()
            && nodes2[#[trigger] g.incoming[j] as int].next[x] implies #[trigger] listed(t, g, x) by {
            assert(nodes[g.incoming[j] as int].next[x]);
        }
    }
    assert forall|j: int| 0 <= j < nodes2.len() implies gn_ok(t, #[trigger] nodes2[j]) && fed(
        t,
        nodes2,
        root,
        nodes2[j],
    ) && forall|x: int| 0 <= x < t.len() ==> !#[trigger] nodes2[j].new[x] by {
        assert(gn_ok(t, nodes[j]) && fed(t, nodes, root, nodes[j]));
        if j == k {
            assert forall|x: int| 0 <= x < t.len() && #[trigger] m.old[x] implies settled(t, m, x)
                && !m.new[x] by {
                assert(nodes[k].old[x]);
                settled_kept(t, nodes[k], m, x);
            }
        }
        assert forall|x: int| 0 <= x < t.len() implies !#[trigger] nodes2[j].new[x] by {
            assert(!nodes[j].new[x]);
        }
    }
    assert forall|j: int| 0 <= j < rest.len() implies gn_ok(t, #[trigger] rest[j]) && fed(
        t,
        nodes2,
        root,
        rest[j],
    ) by {
        assert(s0[j] == rest[j]);
    }
    assert forall|a: int, b: int| 0 <= a < b < nodes2.len() implies (#[trigger] nodes2[a]).old != (
    #[trigger] nodes2[b]).old || nodes2[a].next != nodes2[b].next by {
        assert(nodes[a].old != nodes[b].old || nodes[a].next != nodes[b].next);
    }
    assert forall|src: int, w: Word, i: nat| -1 <= src < nodes2.len() && wants(
        t,
        nodes2,
        root,
        src,
        w,
        i,
    ) implies #[trigger] covered(t, nodes2, src, w, i) || covered(t, rest, src, w, i) by {
        assert(wants(t, nodes, root, src, w, i)) by {
            if src >= 0 {
                assert forall|x: int| 0 <= x < t.len() && #[trigger] nodes[src].next[x] implies sat(
                    t,
                    x,
                    w,
                    i,
                ) by {
                    assert(nodes2[src].next[x]);
                }
            }
        }
        assert(covered(t, nodes, src, w, i) || covered(t, s0, src, w, i));
        covered_push(t, rest, n, src, w, i);
        if covered(t, nodes, src, w, i) {
            let j = choose|j: int|
                0 <= j < nodes.len() && comes(#[trigger] nodes[j], src) && meets(t, nodes[j], w, i);
            meets_same(t, nodes[j], nodes2[j], w, i);
            assert(comes(nodes2[j], src)) by {
                if src >= 0 {
                    let e = choose|e: int|
                        0 <= e < nodes[j].incoming.len() && #[trigger] nodes[j].incoming[e] == src;
                    assert(nodes2[j].incoming[e] == src);
                }
            }
        } else if !covered(t, rest, src, w, i) {
            meets_same(t, n, m, w, i);
            assert(comes(m, src)) by {
                if src >= 0 {
                    let e = choose|e: int|
                        0 <= e < n.incoming.len() && #[trigger] n.incoming[e] == src;
                    assert(m.incoming[nodes[k].incoming.len() + e] == src);
                }
            }
            assert(nodes2[k] == m);
        }
    }
    load_push(t, rest, n);
    p3_mono(0, effort(t, n));
}

proof fn meets_same(t: Seq<SubM>, n: GN, m: GN, w: Word, i: nat)
    requires
        meets(t, n, w, i),
        n.old == m.old,
        n.new == m.new,
        n.next == m.next,
    ensures
        meets(t, m, w, i),
{
    assert forall|x: int| 0 <= x < t.len() && #[trigger] m.old[x] implies (
    t[x] matches SubM::U(a, b) ==> sat(t, b, w, i) ==> listed(t, m, b)) by {
        assert(n.old[x]);
        if t[x] is U && sat(t, t[x]->U_1, w, i) {
            assert(listed(t, n, t[x]->U_1));
        }
    }
    assert forall|x: int| 0 <= x < t.len() && #[trigger] m.old[x] implies sat(t, x, w, i) by {
        assert(n.old[x]);
    }
    assert forall|x: int| 0 <= x < t.len() && #[trigger] m.new[x] implies sat(t, x, w, i) by {
        assert(n.new[x]);
    }
    assert forall|x: int| 0 <= x < t.len() && #[trigger] m.next[x] implies sat(t, x, w, i + 1) by {
        assert(n.next[x]);
    }
}

proof fn complete_add(
    t: Seq<SubM>,
    nodes: Seq<GN>,
    rest: Seq<GN>,
    n: GN,
    succ: GN,
    root: int,
)
    requires
        tableau(t, nodes, rest.push(n), root),
        nodes.len() < usize::MAX,
        forall|x: int| 0 <= x < t.len() ==> !#[trigger] n.new[x],
        forall|k: int|
            0 <= k < nodes.len() ==> (#[trigger] nodes[k]).old != n.old || nodes[k].next != n.next,
        !succ.init,
        succ.incoming == seq![nodes.len() as usize],
        succ.new == n.next,
        sized(t, succ),
        forall|x: int| 0 <= x < t.len() ==> !#[trigger] succ.old[x],
        forall|x: int| 0 <= x < t.len() ==> !#[trigger] succ.next[x],
    ensures
        tableau(t, nodes.push(n), rest.push(succ), root),
        nodes.len() < bound(2 * t.len()),
{
    let s0 = rest.push(n);
    let nodes2 = nodes.push(n);
    let s2 = rest.push(succ);
    assert(s0[rest.len() as int] == n);
    assert(gn_ok(t, n) && fed(t, nodes, root, n));
    assert forall|g: GN| #[trigger] fed(t, nodes, root, g) implies fed(t, nodes2, root, g) by {
        assert forall|j: int, x: int| 0 <= j < g.incoming.len() && 0 <= x < t.len()
            && nodes2[#[trigger] g.incoming[j] as int].next[x] implies #[trigger] listed(t, g, x) by {
            assert(g.incoming[j] < nodes.len());
            assert(nodes[g.incoming[j] as int].next[x]);
        }
    }
    assert(fed(t, nodes2, root, succ)) by {
        assert forall|j: int, x: int| 0 <= j < succ.incoming.len() && 0 <= x < t.len()
            && nodes2[#[trigger] succ.incoming[j] as int].next[x] implies #[trigger] listed(t, succ, x) by {
            assert(succ.incoming[j] == nodes.len());
            assert(nodes2[nodes.len() as int] == n);
        }
    }
    assert forall|j: int| 0 <= j < nodes2.len() implies gn_ok(t, #[trigger] nodes2[j]) && fed(
        t,
        nodes2,
        root,
        nodes2[j],
    ) && forall|x: int| 0 <= x < t.len() ==> !#[trigger] nodes2[j].new[x] by {
        if j < nodes.len() {
            assert(nodes2[j] == nodes[j]);
            assert(gn_ok(t, nodes[j]) && fed(t, nodes, root, nodes[j]));
        }
    }
    assert forall|j: int| 0 <= j < s2.len() implies gn_ok(t, #[trigger] s2[j]) && fed(
        t,
        nodes2,
        root,
        s2[j],
    ) by {
        if j < rest.len() {
            assert(s0[j] == s2[j]);
            assert(gn_ok(t, s0[j]) && fed(t, nodes, root, s0[j]));
        }
    }
    assert forall|a: int, b: int| 0 <= a < b < nodes2.len() implies (#[trigger] nodes2[a]).old != (
    #[trigger] nodes2[b]).old || nodes2[a].next != nodes2[b].next by {
        if b < nodes.len() {
            assert(nodes[a].old != nodes[b].old || nodes[a].next != nodes[b].next);
        } else {
            assert(nodes2[a] == nodes[a]);
        }
    }
    assert forall|src: int, w: Word, i: nat| -1 <= src < nodes2.len() && wants(
        t,
        nodes2,
        root,
        src,
        w,
        i,
    ) implies #[trigger] covered(t, nodes2, src, w, i) || covered(t, s2, src, w, i) by {
        covered_push(t, rest, n, src, w, i);
        covered_push(t, rest, succ, src, w, i);
        covered_push(t, nodes, n, src, w, i);
        if src < nodes.len() {
            assert(src >= 0 ==> nodes2[src] == nodes[src]);
            assert(wants(t, nodes, root, src, w, i));
            assert(covered(t, nodes, src, w, i) || covered(t, s0, src, w, i));
        } else {
            assert(nodes2[src] == n);
            assert(succ.incoming[0] == src);
            assert(comes(succ, src));
            assert(meets(t, succ, w, i)) by {
                assert forall|x: int| 0 <= x < t.len() && #[trigger] succ.new[x] implies sat(t, x, w, i) by {
                    assert(n.next[x]);
                }
            }
        }
    }
    nodes_bound(t, nodes2);
}

/// The tableau of a formula, fully expanded.
fn build(t: &Vec<Sub>, root: usize) -> (nodes: Vec<GNode>)
    requires
        tab_ok(tab_of(t@)),
        root < t@.len(),
    ensures
        tableau(tab_of(t@), gns(nodes@), Seq::empty(), root as int),
{
    let ghost tt = tab_of(t@);
    let mut nodes: Vec<GNode> = Vec::new();
    let mut stack: Vec<GNode> = Vec::new();
    let mut new = no_bits(t.len());
    new.set(root, true);
    let first = GNode {
        init: true,
        incoming: Vec::new(),
        new,
        old: no_bits(t.len()),
        next: no_bits(t.len()),
    };
    let ghost f0 = first@;
    stack.push(first);
    proof {
        let s = gns(stack@);
        assert(s[0] == f0);
        assert forall|src: int, w: Word, i: nat| -1 <= src < gns(nodes@).len() && wants(
            tt,
            gns(nodes@),
            root as int,
            src,
            w,
            i,
        ) implies #[trigger] covered(tt, gns(nodes@), src, w, i) || covered(tt, s, src, w, i) by {
            assert(src == -1);
            assert(comes(s[0], src));
            assert(meets(tt, s[0], w, i));
        }
    }
    while stack.len() > 0
        invariant
            tt == tab_of(t@),
            root < t@.len(),
            tableau(tt, gns(nodes@), gns(stack@), root as int),
            nodes@.len() <= bound(2 * tt.len()),
        decreases bound(2 * tt.len()) - nodes@.len(), load(tt, gns(stack@)),
    {
        let ghost nd = gns(nodes@);
        let ghost st = gns(stack@);
        let n = stack.pop().unwrap();
        let ghost rest = gns(stack@);
        let ghost g = n@;
        assert(st =~= rest.push(g));
        assert(st[rest.len() as int] == g);
        assert(gn_ok(tt, g) && fed(tt, nd, root as int, g));
        match pending(&n) {
            Some(cur) => {
                let mut ms = expand(t, n, cur, Ghost(nd), Ghost(root as int));
                let ghost gm = gns(ms@);
                proof {
                    tableau_step(tt, nd, rest, g, gm, root as int);
                }
                let ghost stack0 = stack@;
                let ghost ms0 = ms@;
                stack.append(&mut ms);
                assert(gns(stack@) =~= rest + gm);
            },
            None => {
                let mut k: usize = 0;
                let mut hit: Option<usize> = None;
                while k < nodes.len()
                    invariant
                        k <= nodes@.len(),
                        nd == gns(nodes@),
                        g == n@,
                        hit is None ==> forall|j: int|
                            0 <= j < k ==> (#[trigger] nd[j]).old != g.old || nd[j].next != g.next,
                        hit matches Some(j) ==> j < nodes@.len() && nd[j as int].old == g.old
                            && nd[j as int].next == g.next,
                    decreases nodes.len() - k,
                {
                    assert(nd[k as int] == nodes@[k as int]@);
                    if hit.is_none() && same_bits(&nodes[k].old, &n.old) && same_bits(
                        &nodes[k].next,
                        &n.next,
                    ) {
                        hit = Some(k);
                    }
                    k += 1;
                }
                match hit {
                    Some(j) => {
                        let mut incoming = clone_ids(&nodes[j].incoming);
                        let mut more = clone_ids(&n.incoming);
                        incoming.append(&mut more);
                        let merged = GNode {
                            init: nodes[j].init || n.init,
                            incoming,
                            new: clone_bits(&nodes[j].new),
                            old: clone_bits(&nodes[j].old),
                            next: clone_bits(&nodes[j].next),
                        };
                        let ghost mv = merged@;
                        nodes.set(j, merged);
                        proof {
                            assert(gns(nodes@) =~= nd.update(j as int, mv));
                            complete_merge(tt, nd, gns(nodes@), rest, g, j as int, root as int);
                        }
                    },
                    None => {
                        let id: usize = nodes.len();
                        let mut incoming: Vec<usize> = Vec::new();
                        incoming.push(id);
                        let succ = GNode {
                            init: false,
                            incoming,
                            new: clone_bits(&n.next),
                            old: no_bits(t.len()),
                            next: no_bits(t.len()),
                        };
                        let ghost sv = succ@;
                        nodes.push(n);
                        stack.push(succ);
                        proof {
                            let len: usize = nodes@.len() as usize;
                            assert(id < usize::MAX) by {
                                assert(nodes@.len() == id + 1);
                                assert(nodes@.len() <= usize::MAX) by {
                                    vstd::std_specs::vec::axiom_spec_len(&nodes);
                                }
                            }
                            assert(sv.incoming =~= seq![id]);
                            complete_add(tt, nd, rest, g, sv, root as int);
                            assert(gns(nodes@) =~= nd.push(g));
                            assert(gns(stack@) =~= rest.push(sv));
                        }
                    },
                }
            },
        }
    }
    assert(gns(stack@) =~= Seq::empty());
    nodes
}

/// A run through the tableau whose literals hold.
spec fn tab_run(t: Seq<SubM>, ns: Seq<GN>, w: Word, run: spec_fn(nat) -> usize) -> bool {
    &&& forall|i: nat| (#[trigger] run(i)) < ns.len()
    &&& ns[run(0) as int].init
    &&& forall|i: nat| #[trigger] moves_on(ns, run, i)
    &&& forall|i: nat, x: int|
        0 <= x < t.len() && #[trigger] ns[run(i) as int].old[x] && (t[x] is Atom || t[x] is NAtom)
            ==> sat(t, x, w, i)
}

/// The run enters a node from the one before.
spec fn moves_on(ns: Seq<GN>, run: spec_fn(nat) -> usize, i: nat) -> bool {
    comes(ns[run((i + 1) as nat) as int], run(i) as int)
}

/// The node does not leave the until open.
spec fn closes(t: Seq<SubM>, n: GN, u: int) -> bool {
    !n.old[u] || listed(t, n, t[u]->U_1)
}

spec fn closes_from(t: Seq<SubM>, ns: Seq<GN>, u: int, run: spec_fn(nat) -> usize, i: nat) -> bool {
    exists|j: nat| i <= j && closes(t, ns[(#[trigger] run(j)) as int], u)
}

spec fn fair(t: Seq<SubM>, ns: Seq<GN>, u: int, run: spec_fn(nat) -> usize) -> bool {
    forall|i: nat| #[trigger] closes_from(t, ns, u, run, i)
}

proof fn passed_on(t: Seq<SubM>, ns: Seq<GN>, root: int, w: Word, run: spec_fn(nat) -> usize, x: int, i: nat)
    requires
        tableau(t, ns, Seq::empty(), root),
        tab_run(t, ns, w, run),
        0 <= x < t.len(),
        ns[run(i) as int].next[x],
    ensures
        listed(t, ns[run(i + 1) as int], x),
{
    let n = ns[run(i + 1) as int];
    let s = run(i);
    assert(run(i) < ns.len());
    assert(run(i + 1) < ns.len());
    assert(moves_on(ns, run, i));
    assert(comes(n, s as int));
    assert(fed(t, ns, root, n));
    let k = choose|k: int| 0 <= k < n.incoming.len() && #[trigger] n.incoming[k] == s as int;
    assert(nodes_next(ns, n.incoming[k] as int, x));
    assert(listed(t, n, x));
}

spec fn nodes_next(ns: Seq<GN>, s: int, x: int) -> bool {
    ns[s].next[x]
}

proof fn until_found(
    t: Seq<SubM>,
    ns: Seq<GN>,
    root: int,
    w: Word,
    run: spec_fn(nat) -> usize,
    u: int,
    i: nat,
    j: nat,
) -> (m: nat)
    requires
        tableau(t, ns, Seq::empty(), root),
        tab_run(t, ns, w, run),
        0 <= u < t.len(),
        t[u] is U,
        i <= j,
        ns[run(i) as int].old[u],
        closes(t, ns[run(j) as int], u),
    ensures
        i <= m <= j,
        listed(t, ns[run(m) as int], t[u]->U_1),
        forall|k: nat| i <= k < m ==> listed(t, ns[(#[trigger] run(k)) as int], t[u]->U_0),
    decreases j - i,
{
    let n = ns[run(i) as int];
    assert(run(i) < ns.len());
    assert(gn_ok(t, n));
    assert(settled(t, n, u));
    assert(parts_before(t[u], u));
    if listed(t, n, t[u]->U_1) {
        i
    } else {
        assert(i < j);
        passed_on(t, ns, root, w, run, u, i);
        assert(run(i + 1) < ns.len());
        assert(!ns[run(i + 1) as int].new[u]);
        let m = until_found(t, ns, root, w, run, u, i + 1, j);
        assert forall|k: nat| i <= k < m implies listed(t, ns[(#[trigger] run(k)) as int], t[u]->U_0) by {}
        m
    }
}

proof fn release_held(
    t: Seq<SubM>,
    ns: Seq<GN>,
    root: int,
    w: Word,
    run: spec_fn(nat) -> usize,
    u: int,
    i: nat,
    j: nat,
)
    requires
        tableau(t, ns, Seq::empty(), root),
        tab_run(t, ns, w, run),
        0 <= u < t.len(),
        t[u] is R,
        i <= j,
        ns[run(i) as int].old[u],
        forall|k: nat| i <= k < j ==> !listed(t, ns[(#[trigger] run(k)) as int], t[u]->R_0),
    ensures
        ns[run(j) as int].old[u],
        listed(t, ns[run(j) as int], t[u]->R_1),
    decreases j - i,
{
    let n = ns[run(i) as int];
    assert(run(i) < ns.len());
    assert(gn_ok(t, n));
    assert(settled(t, n, u));
    assert(parts_before(t[u], u));
    if i < j {
        assert(!listed(t, ns[run(i) as int], t[u]->R_0));
        passed_on(t, ns, root, w, run, u, i);
        assert(run(i + 1) < ns.len());
        assert(!ns[run(i + 1) as int].new[u]);
        release_held(t, ns, root, w, run, u, i + 1, j);
    }
}

/// What a fair run has expanded holds.
proof fn sound(
    t: Seq<SubM>,
    ns: Seq<GN>,
    root: int,
    w: Word,
    run: spec_fn(nat) -> usize,
    x: int,
    i: nat,
)
    requires
        tableau(t, ns, Seq::empty(), root),
        tab_run(t, ns, w, run),
        forall|u: int| 0 <= u < t.len() && t[u] is U ==> #[trigger] fair(t, ns, u, run),
        0 <= x < t.len(),
        listed(t, ns[run(i) as int], x),
    ensures
        sat(t, x, w, i),
    decreases x,
{
    let n = ns[run(i) as int];
    assert(run(i) < ns.len());
    assert(gn_ok(t, n));
    assert(!n.new[x]);
    sat_true(t, x, w, i);
    assert(parts_before(t[x], x));
    if !(t[x] is True) {
        assert(n.old[x]);
        assert(settled(t, n, x));
        match t[x] {
            SubM::And(a, b) => {
                sound(t, ns, root, w, run, a, i);
                sound(t, ns, root, w, run, b, i);
            },
            SubM::Or(a, b) => {
                if listed(t, n, a) {
                    sound(t, ns, root, w, run, a, i);
                } else {
                    sound(t, ns, root, w, run, b, i);
                }
            },
            SubM::X(a) => {
                passed_on(t, ns, root, w, run, a, i);
                sound(t, ns, root, w, run, a, i + 1);
            },
            SubM::U(a, b) => {
                assert(fair(t, ns, x, run));
                assert(closes_from(t, ns, x, run, i));
                let j = choose|j: nat| i <= j && closes(t, ns[(#[trigger] run(j)) as int], x);
                let m = until_found(t, ns, root, w, run, x, i, j);
                let p = nn_sat(formula(t, a), w);
                let q = nn_sat(formula(t, b), w);
                sound(t, ns, root, w, run, b, m);
                assert(q(m));
                assert forall|k: nat| i <= k < m implies #[trigger] p(k) by {
                    assert(listed(t, ns[run(k) as int], a));
                    sound(t, ns, root, w, run, a, k);
                    assert(sat(t, a, w, k));
                }
                assert(lt_until(p, q, i));
            },
            SubM::R(a, b) => {
                let p = nn_sat(formula(t, a), w);
                let q = nn_sat(formula(t, b), w);
                assert forall|j: nat| i <= j implies #[trigger] q(j) || exists|k: nat|
                    i <= k < j && #[trigger] p(k) by {
                    if forall|k: nat| i <= k < j ==> !listed(t, ns[(#[trigger] run(k)) as int], a) {
                        release_held(t, ns, root, w, run, x, i, j);
                        sound(t, ns, root, w, run, b, j);
                        assert(sat(t, b, w, j));
                    } else {
                        let k = choose|k: nat|
                            i <= k < j && listed(t, ns[(#[trigger] run(k)) as int], a);
                        sound(t, ns, root, w, run, a, k);
                        assert(sat(t, a, w, k));
                        assert(p(k));
                    }
                }
                assert(lt_release(p, q, i));
            },
            _ => {},
        }
    }
}

/// A node for each position, each entered from the one before, that meet the word.
spec fn choice(t: Seq<SubM>, ns: Seq<GN>, w: Word, i: nat) -> int
    decreases i,
{
    let src = if i == 0 {
        -1
    } else {
        choice(t, ns, w, (i - 1) as nat)
    };
    choose|k: int| 0 <= k < ns.len() && comes(#[trigger] ns[k], src) && meets(t, ns[k], w, i)
}

proof fn choice_ok(t: Seq<SubM>, ns: Seq<GN>, root: int, w: Word, i: nat)
    requires
        tableau(t, ns, Seq::empty(), root),
        sat(t, root, w, 0),
    ensures
        0 <= choice(t, ns, w, i) < ns.len(),
        meets(t, ns[choice(t, ns, w, i)], w, i),
        comes(
            ns[choice(t, ns, w, i)],
            if i == 0 {
                -1
            } else {
                choice(t, ns, w, (i - 1) as nat)
            },
        ),
    decreases i,
{
    let src = if i == 0 {
        -1
    } else {
        choice(t, ns, w, (i - 1) as nat)
    };
    if i > 0 {
        choice_ok(t, ns, root, w, (i - 1) as nat);
        let n = ns[src];
        assert forall|x: int| 0 <= x < t.len() && #[trigger] ns[src].next[x] implies sat(t, x, w, i) by {
            assert(n.next[x]);
        }
    }
    assert(wants(t, ns, root, src, w, i));
    assert(!covered(t, Seq::empty(), src, w, i));
    assert(covered(t, ns, src, w, i));
}

/// A word in which the formula holds has a fair run.
proof fn complete(t: Seq<SubM>, ns: Seq<GN>, root: int, w: Word) -> (run: spec_fn(nat) -> usize)
    requires
        tableau(t, ns, Seq::empty(), root),
        sat(t, root, w, 0),
        ns.len() <= usize::MAX,
    ensures
        tab_run(t, ns, w, run),
        forall|u: int| 0 <= u < t.len() && t[u] is U ==> #[trigger] fair(t, ns, u, run),
{
    let run = |i: nat| choice(t, ns, w, i) as usize;
    assert forall|i: nat| (#[trigger] run(i)) < ns.len() by {
        choice_ok(t, ns, root, w, i);
    }
    choice_ok(t, ns, root, w, 0);
    assert forall|i: nat| #[trigger] moves_on(ns, run, i) by {
        choice_ok(t, ns, root, w, i);
        choice_ok(t, ns, root, w, i + 1);
    }
    assert forall|i: nat, x: int| 0 <= x < t.len() && #[trigger] ns[run(i) as int].old[x] && (
    t[x] is Atom || t[x] is NAtom) implies sat(t, x, w, i) by {
        choice_ok(t, ns, root, w, i);
    }
    assert forall|u: int| 0 <= u < t.len() && t[u] is U implies #[trigger] fair(t, ns, u, run) by {
        assert(parts_before(t[u], u));
        let b = t[u]->U_1;
        assert forall|i: nat| #[trigger] closes_from(t, ns, u, run, i) by {
            choice_ok(t, ns, root, w, i);
            if closes(t, ns[run(i) as int], u) {
                assert(i <= i && closes(t, ns[run(i) as int], u));
            } else {
                assert(ns[run(i) as int].old[u]);
                assert(sat(t, u, w, i));
                let p = nn_sat(formula(t, t[u]->U_0), w);
                let q = nn_sat(formula(t, b), w);
                assert(lt_until(p, q, i));
                let j = choose|j: nat|
                    i <= j && #[trigger] q(j) && forall|k: nat| i <= k < j ==> #[trigger] p(k);
                choice_ok(t, ns, root, w, j);
                assert(sat(t, b, w, j));
                assert(closes(t, ns[run(j) as int], u)) by {
                    if ns[run(j) as int].old[u] {
                        assert(listed(t, ns[run(j) as int], b));
                    }
                }
            }
        }
    }
    run
}

fn has_id(v: &Vec<usize>, x: usize) -> (r: bool)
    ensures
        r == exists|k: int| 0 <= k < v@.len() && #[trigger] v@[k] == x,
{
    let mut i: usize = 0;
    while i < v.len()
        invariant
            i <= v@.len(),
            forall|k: int| 0 <= k < i ==> #[trigger] v@[k] != x,
        decreases v.len() - i,
    {
        if v[i] == x {
            return true;
        }
        i += 1;
    }
    false
}

/// The literals of a node.
fn literals(t: &Vec<Sub>, n: &GNode) -> (r: Vec<Ltl>)
    requires
        tab_ok(tab_of(t@)),
        n.old@.len() == t@.len(),
    ensures
        forall|k: int| 0 <= k < r@.len() ==> is_literal((#[trigger] r@[k]).model()),
        forall|p: spec_fn(FE) -> bool, k: int|
            #![trigger nn_atoms(r@[k].model(), p)]
            tab_atoms(tab_of(t@), p) && 0 <= k < r@.len() ==> nn_atoms(r@[k].model(), p),
        forall|w: Word, i: nat| #[trigger]
            lits_hold(r@, w, i) == (forall|x: int|
                0 <= x < t@.len() && #[trigger] n.old@[x] && (tab_of(t@)[x] is Atom
                    || tab_of(t@)[x] is NAtom) ==> sat(tab_of(t@), x, w, i)),
{
    let ghost tt = tab_of(t@);
    let ghost mut src: Seq<int> = Seq::empty();
    let mut out: Vec<Ltl> = Vec::new();
    let mut x: usize = 0;
    while x < t.len()
        invariant
            x <= t@.len(),
            tt == tab_of(t@),
            tab_ok(tt),
            n.old@.len() == t@.len(),
            src.len() == out@.len(),
            forall|k: int|
                0 <= k < src.len() ==> 0 <= #[trigger] src[k] < x && n.old@[src[k]] && literal_at(
                    tt,
                    src[k],
                ) && formula(tt, src[k]) == out@[k].model(),
            forall|y: int| 0 <= y < x && #[trigger] n.old@[y] && literal_at(tt, y) ==> src.contains(y),
        decreases t.len() - x,
    {
        let ghost src0 = src;
        proof {
            assert(tt[x as int] == t@[x as int].model());
            assert(parts_before(tt[x as int], x as int));
        }
        if n.old[x] {
            match &t[x] {
                Sub::Atom(e) => {
                    out.push(Ltl::Atom(e.clone()));
                    proof {
                        src = src.push(x as int);
                    }
                },
                Sub::NAtom(e) => {
                    out.push(Ltl::NAtom(e.clone()));
                    proof {
                        src = src.push(x as int);
                    }
                },
                _ => {},
            }
        }
        proof {
            assert forall|y: int| 0 <= y < x + 1 && #[trigger] n.old@[y] && literal_at(tt, y) implies src.contains(
                y,
            ) by {
                if y < x {
                    assert(src0.contains(y));
                    let k = choose|k: int| 0 <= k < src0.len() && src0[k] == y;
                    assert(src[k] == y);
                } else {
                    assert(src[src0.len() as int] == y);
                }
            }
        }
        x += 1;
    }
    proof {
        assert forall|k: int| 0 <= k < out@.len() implies is_literal((#[trigger] out@[k]).model()) by {
            assert(formula(tt, src[k]) == out@[k].model());
            assert(parts_before(tt[src[k]], src[k]));
        }
        assert forall|p: spec_fn(FE) -> bool, k: int|
            #![trigger nn_atoms(out@[k].model(), p)]
            tab_atoms(tt, p) && 0 <= k < out@.len() implies nn_atoms(out@[k].model(), p) by {
            assert(formula(tt, src[k]) == out@[k].model());
            assert(parts_before(tt[src[k]], src[k]));
            assert(sub_atoms(tt[src[k]], p));
        }
        assert forall|w: Word, i: nat| #[trigger] lits_hold(out@, w, i) == (forall|y: int|
            0 <= y < t@.len() && #[trigger] n.old@[y] && (tt[y] is Atom || tt[y] is NAtom) ==> sat(
                tt,
                y,
                w,
                i,
            )) by {
            if lits_hold(out@, w, i) {
                assert forall|y: int| 0 <= y < t@.len() && #[trigger] n.old@[y] && (tt[y] is Atom
                    || tt[y] is NAtom) implies sat(tt, y, w, i) by {
                    assert(literal_at(tt, y));
                    assert(src.contains(y));
                    let k = choose|k: int| 0 <= k < src.len() && src[k] == y;
                    assert(nn_sat(out@[k].model(), w)(i));
                }
            }
            if forall|y: int|
                0 <= y < t@.len() && #[trigger] n.old@[y] && (tt[y] is Atom || tt[y] is NAtom)
                    ==> sat(tt, y, w, i) {
                assert forall|k: int| 0 <= k < out@.len() implies nn_sat((#[trigger] out@[k]).model(), w)(i) by {
                    assert(n.old@[src[k]]);
                    assert(sat(tt, src[k], w, i));
                }
            }
        }
    }
    out
}

spec fn literal_at(t: Seq<SubM>, y: int) -> bool {
    t[y] is Atom || t[y] is NAtom
}

proof fn comes_id(n: GN, s: usize)
    ensures
        comes(n, s as int) == exists|k: int| 0 <= k < n.incoming.len() && #[trigger] n.incoming[k] == s,
{
    if comes(n, s as int) {
        let k = choose|k: int| 0 <= k < n.incoming.len() && #[trigger] n.incoming[k] == s as int;
        assert(n.incoming[k] == s);
    }
    if exists|k: int| 0 <= k < n.incoming.len() && #[trigger] n.incoming[k] == s {
        let k = choose|k: int| 0 <= k < n.incoming.len() && #[trigger] n.incoming[k] == s;
        assert(n.incoming[k] == s as int);
    }
}

/// The nodes that do not leave the until `u` open.
fn closing(t: &Vec<Sub>, nodes: &Vec<GNode>, u: usize, b: usize) -> (r: Vec<usize>)
    requires
        u < t@.len(),
        b < t@.len(),
        tab_of(t@)[u as int] is U,
        tab_of(t@)[u as int]->U_1 == b,
        forall|k: int|
            0 <= k < nodes@.len() ==> sized(tab_of(t@), #[trigger] gns(nodes@)[k]) && !gns(
                nodes@,
            )[k].new[b as int],
    ensures
        forall|q: usize| #[trigger]
            r@.contains(q) <==> q < nodes@.len() && closes(
                tab_of(t@),
                gns(nodes@)[q as int],
                u as int,
            ),
{
    let ghost tt = tab_of(t@);
    let ghost ns = gns(nodes@);
    let trivial = match &t[b] {
        Sub::True => true,
        _ => false,
    };
    assert(trivial == tt[b as int] is True);
    let mut out: Vec<usize> = Vec::new();
    let mut i: usize = 0;
    while i < nodes.len()
        invariant
            i <= nodes@.len(),
            tt == tab_of(t@),
            ns == gns(nodes@),
            u < t@.len(),
            b < t@.len(),
            tt[u as int] is U,
            tt[u as int]->U_1 == b,
            trivial == tt[b as int] is True,
            forall|k: int|
                0 <= k < nodes@.len() ==> sized(tt, #[trigger] ns[k]) && !ns[k].new[b as int],
            forall|q: usize| #[trigger]
                out@.contains(q) <==> q < i && closes(tt, ns[q as int], u as int),
        decreases nodes.len() - i,
    {
        let ghost before = out@;
        assert(ns[i as int] == nodes@[i as int]@);
        assert(sized(tt, ns[i as int]) && !ns[i as int].new[b as int]);
        if !nodes[i].old[u] || trivial || nodes[i].old[b] {
            out.push(i);
        }
        proof {
            assert forall|q: usize| #[trigger] out@.contains(q) <==> q < i + 1 && closes(
                tt,
                ns[q as int],
                u as int,
            ) by {
                if out@.contains(q) {
                    let k = choose|k: int| 0 <= k < out@.len() && out@[k] == q;
                    if k < before.len() {
                        assert(before[k] == q);
                        assert(before.contains(q));
                    }
                }
                if q < i && closes(tt, ns[q as int], u as int) {
                    assert(before.contains(q));
                    let k = choose|k: int| 0 <= k < before.len() && before[k] == q;
                    assert(out@[k] == q);
                }
                if q == i && closes(tt, ns[q as int], u as int) {
                    assert(out@[before.len() as int] == q);
                }
            }
        }
        i += 1;
    }
    out
}

/// The indices below `n` for which a node is initial.
fn initial_nodes(nodes: &Vec<GNode>) -> (r: Vec<usize>)
    ensures
        forall|q: usize| #[trigger]
            r@.contains(q) <==> q < nodes@.len() && gns(nodes@)[q as int].init,
{
    let mut out: Vec<usize> = Vec::new();
    let mut i: usize = 0;
    while i < nodes.len()
        invariant
            i <= nodes@.len(),
            forall|q: usize| #[trigger]
                out@.contains(q) <==> q < i && gns(nodes@)[q as int].init,
        decreases nodes.len() - i,
    {
        let ghost before = out@;
        assert(gns(nodes@)[i as int] == nodes@[i as int]@);
        if nodes[i].init {
            out.push(i);
        }
        proof {
            assert forall|q: usize| #[trigger] out@.contains(q) <==> q < i + 1 && gns(nodes@)[q as int].init by {
                if out@.contains(q) {
                    let k = choose|k: int| 0 <= k < out@.len() && out@[k] == q;
                    if k < before.len() {
                        assert(before[k] == q);
                        assert(before.contains(q));
                    }
                }
                if q < i && gns(nodes@)[q as int].init {
                    assert(before.contains(q));
                    let k = choose|k: int| 0 <= k < before.len() && before[k] == q;
                    assert(out@[k] == q);
                }
                if q == i && gns(nodes@)[q as int].init {
                    assert(out@[before.len() as int] == q);
                }
            }
        }
        i += 1;
    }
    out
}

/// The nodes that are entered from `s`.
fn successors(nodes: &Vec<GNode>, s: usize) -> (r: Vec<usize>)
    ensures
        forall|q: usize| #[trigger]
            r@.contains(q) <==> q < nodes@.len() && comes(gns(nodes@)[q as int], s as int),
{
    let mut out: Vec<usize> = Vec::new();
    let mut i: usize = 0;
    while i < nodes.len()
        invariant
            i <= nodes@.len(),
            forall|q: usize| #[trigger]
                out@.contains(q) <==> q < i && comes(gns(nodes@)[q as int], s as int),
        decreases nodes.len() - i,
    {
        let ghost before = out@;
        assert(gns(nodes@)[i as int] == nodes@[i as int]@);
        if has_id(&nodes[i].incoming, s) {
            out.push(i);
        }
        proof {
            comes_id(gns(nodes@)[i as int], s);
            assert forall|q: usize| #[trigger] out@.contains(q) <==> q < i + 1 && comes(
                gns(nodes@)[q as int],
                s as int,
            ) by {
                if out@.contains(q) {
                    let k = choose|k: int| 0 <= k < out@.len() && out@[k] == q;
                    if k < before.len() {
                        assert(before[k] == q);
                        assert(before.contains(q));
                    }
                }
                if q < i && comes(gns(nodes@)[q as int], s as int) {
                    assert(before.contains(q));
                    let k = choose|k: int| 0 <= k < before.len() && before[k] == q;
                    assert(out@[k] == q);
                }
                if q == i && comes(gns(nodes@)[q as int], s as int) {
                    assert(out@[before.len() as int] == q);
                }
            }
        }
        i += 1;
    }
    out
}

/// Some node has expanded the formula.
fn occurs(nodes: &Vec<GNode>, u: usize) -> (r: bool)
    requires
        forall|k: int| 0 <= k < nodes@.len() ==> u < (#[trigger] nodes@[k]).old@.len(),
    ensures
        !r ==> forall|k: int| 0 <= k < nodes@.len() ==> !(#[trigger] nodes@[k]).old@[u as int],
{
    let mut i: usize = 0;
    while i < nodes.len()
        invariant
            i <= nodes@.len(),
            forall|k: int| 0 <= k < nodes@.len() ==> u < (#[trigger] nodes@[k]).old@.len(),
            forall|k: int| 0 <= k < i ==> !(#[trigger] nodes@[k]).old@[u as int],
        decreases nodes.len() - i,
    {
        if nodes[i].old[u] {
            return true;
        }
        i += 1;
    }
    false
}

/// The acceptance sets with the untils that they stand for.
spec fn sets_ok(t: Seq<SubM>, ns: Seq<GN>, acc: Seq<Vec<usize>>, us: Seq<int>) -> bool {
    &&& acc.len() == us.len()
    &&& forall|s: int| 0 <= s < us.len() ==> 0 <= #[trigger] us[s] < t.len() && t[us[s]] is U
    &&& forall|s: int, q: usize|
        0 <= s < acc.len() ==> (#[trigger] acc[s]@.contains(q) <==> q < ns.len() && closes(
            t,
            ns[q as int],
            us[s],
        ))
}

/// An automaton that accepts exactly the words in which the formula holds at the start.
pub fn translate(f: &Ltl) -> (r: Lgba)
    ensures
        r.wf(),
        forall|w: Word| #[trigger] r.accepts(w) == nn_sat(f.model(), w)(0),
        forall|p: spec_fn(FE) -> bool| nn_atoms(f.model(), p) ==> #[trigger] r.atoms_in(p),
{
    let mut t: Vec<Sub> = Vec::new();
    let ghost t0 = tab_of(t@);
    let root = intern(&mut t, f);
    let nodes = build(&t, root);
    let ghost tt = tab_of(t@);
    let ghost ns = gns(nodes@);
    proof {
        assert forall|k: int| 0 <= k < nodes@.len() implies sized(tt, #[trigger] ns[k]) && nodes@[k].old@.len()
            == tt.len() by {
            assert(gn_ok(tt, ns[k]));
        }
    }
    let mut labels: Vec<Vec<Ltl>> = Vec::new();
    let mut edges: Vec<Vec<usize>> = Vec::new();
    let mut i: usize = 0;
    while i < nodes.len()
        invariant
            i <= nodes@.len(),
            tt == tab_of(t@),
            ns == gns(nodes@),
            tab_ok(tt),
            labels@.len() == i,
            edges@.len() == i,
            forall|k: int| 0 <= k < nodes@.len() ==> sized(tt, #[trigger] ns[k]),
            forall|q: int, k: int|
                0 <= q < i && 0 <= k < labels@[q]@.len() ==> is_literal(
                    (#[trigger] labels@[q]@[k]).model(),
                ),
            forall|p: spec_fn(FE) -> bool, q: int, k: int|
                #![trigger nn_atoms(labels@[q]@[k].model(), p)]
                tab_atoms(tt, p) && 0 <= q < i && 0 <= k < labels@[q]@.len() ==> nn_atoms(
                    labels@[q]@[k].model(),
                    p,
                ),
            forall|q: int, w: Word, n: nat|
                0 <= q < i ==> (#[trigger] lits_hold(labels@[q]@, w, n) == (forall|x: int|
                    0 <= x < tt.len() && #[trigger] ns[q].old[x] && (tt[x] is Atom || tt[x] is NAtom)
                        ==> sat(tt, x, w, n))),
            forall|q: int, p: usize|
                0 <= q < i ==> (#[trigger] edges@[q]@.contains(p) <==> p < ns.len() && comes(
                    ns[p as int],
                    q,
                )),
        decreases nodes.len() - i,
    {
        assert(sized(tt, ns[i as int]));
        assert(ns[i as int] == nodes@[i as int]@);
        labels.push(literals(&t, &nodes[i]));
        edges.push(successors(&nodes, i));
        i += 1;
    }
    let initial = initial_nodes(&nodes);
    let mut accepting: Vec<Vec<usize>> = Vec::new();
    let ghost mut us: Seq<int> = Seq::empty();
    let mut u: usize = 0;
    while u < t.len()
        invariant
            u <= t@.len(),
            tt == tab_of(t@),
            ns == gns(nodes@),
            tab_ok(tt),
            forall|k: int| 0 <= k < nodes@.len() ==> sized(tt, #[trigger] ns[k]),
            forall|k: int, x: int|
                0 <= k < nodes@.len() && 0 <= x < tt.len() ==> !#[trigger] ns[k].new[x],
            sets_ok(tt, ns, accepting@, us),
            forall|x: int|
                0 <= x < u && tt[x] is U ==> us.contains(x) || forall|k: int|
                    0 <= k < ns.len() ==> !#[trigger] ns[k].old[x],
        decreases t.len() - u,
    {
        let ghost us0 = us;
        let ghost acc0 = accepting@;
        assert(tt[u as int] == t@[u as int].model());
        assert(parts_before(tt[u as int], u as int));
        match &t[u] {
            Sub::U(_, b) => {
                assert forall|k: int| 0 <= k < nodes@.len() implies u < (#[trigger] nodes@[k]).old@.len() by {
                    assert(ns[k] == nodes@[k]@);
                    assert(sized(tt, ns[k]));
                }
                if occurs(&nodes, u) {
                    accepting.push(closing(&t, &nodes, u, *b));
                    proof {
                        us = us.push(u as int);
                        assert(us[us0.len() as int] == u);
                        assert forall|s: int, q: usize| 0 <= s < accepting@.len() implies (
                        #[trigger] accepting@[s]@.contains(q) <==> q < ns.len() && closes(
                            tt,
                            ns[q as int],
                            us[s],
                        )) by {
                            if s < acc0.len() {
                                assert(accepting@[s] == acc0[s]);
                                assert(acc0[s]@.contains(q) <==> q < ns.len() && closes(
                                    tt,
                                    ns[q as int],
                                    us0[s],
                                ));
                            }
                        }
                    }
                } else {
                    assert forall|k: int| 0 <= k < ns.len() implies !#[trigger] ns[k].old[u as int] by {
                        assert(ns[k] == nodes@[k]@);
                    }
                }
            },
            _ => {},
        }
        proof {
            assert forall|x: int| 0 <= x < u + 1 && tt[x] is U implies us.contains(x) || forall|k: int|
                0 <= k < ns.len() ==> !#[trigger] ns[k].old[x] by {
                if x < u && us0.contains(x) {
                    let j = choose|j: int| 0 <= j < us0.len() && us0[j] == x;
                    assert(us[j] == x);
                }
            }
        }
        u += 1;
    }
    let ghost acc = accepting@;
    if accepting.len() == 0 {
        let mut all: Vec<usize> = Vec::new();
        let mut j: usize = 0;
        while j < nodes.len()
            invariant
                j <= nodes@.len(),
                all@.len() == j,
                forall|k: int| 0 <= k < j ==> #[trigger] all@[k] == k,
            decreases nodes.len() - j,
        {
            all.push(j);
            j += 1;
        }
        accepting.push(all);
    }
    let r = Lgba { labels, initial, edges, accepting };
    proof {
        assert(nodes@.len() <= usize::MAX) by {
            vstd::std_specs::vec::axiom_spec_len(&nodes);
        }
        automaton_ok(&r, tt, ns, root as int, acc, us);
        assert forall|p: spec_fn(FE) -> bool| nn_atoms(f.model(), p) implies #[trigger] r.atoms_in(p) by {
            assert(tab_atoms(t0, p));
            assert(tab_atoms(tt, p));
        }
        assert forall|w: Word| #[trigger] r.accepts(w) == nn_sat(f.model(), w)(0) by {
            automaton_meaning(&r, tt, ns, root as int, acc, us, w);
        }
    }
    r
}

spec fn mirrors(r: &Lgba, t: Seq<SubM>, ns: Seq<GN>, root: int, acc: Seq<Vec<usize>>, us: Seq<int>) -> bool {
    &&& tableau(t, ns, Seq::empty(), root)
    &&& ns.len() <= usize::MAX
    &&& r.labels@.len() == ns.len()
    &&& r.edges@.len() == ns.len()
    &&& forall|q: int, k: int|
        0 <= q < r.labels@.len() && 0 <= k < r.labels@[q]@.len() ==> is_literal(
            (#[trigger] r.labels@[q]@[k]).model(),
        )
    &&& forall|q: int, w: Word, n: nat|
        0 <= q < ns.len() ==> (#[trigger] lits_hold(r.labels@[q]@, w, n) == (forall|x: int|
            0 <= x < t.len() && #[trigger] ns[q].old[x] && (t[x] is Atom || t[x] is NAtom) ==> sat(
                t,
                x,
                w,
                n,
            )))
    &&& forall|q: int, p: usize|
        0 <= q < ns.len() ==> (#[trigger] r.edges@[q]@.contains(p) <==> p < ns.len() && comes(
            ns[p as int],
            q,
        ))
    &&& forall|q: usize| #[trigger]
        r.initial@.contains(q) <==> q < ns.len() && ns[q as int].init
    &&& sets_ok(t, ns, acc, us)
    &&& forall|x: int|
        0 <= x < t.len() && t[x] is U ==> us.contains(x) || forall|k: int|
            0 <= k < ns.len() ==> !#[trigger] ns[k].old[x]
    &&& if acc.len() == 0 {
        r.accepting@.len() == 1 && r.accepting@[0]@.len() == ns.len() && forall|k: int|
            0 <= k < ns.len() ==> #[trigger] r.accepting@[0]@[k] == k
    } else {
        r.accepting@ == acc
    }
}

proof fn automaton_ok(r: &Lgba, t: Seq<SubM>, ns: Seq<GN>, root: int, acc: Seq<Vec<usize>>, us: Seq<int>)
    requires
        mirrors(r, t, ns, root, acc, us),
    ensures
        r.wf(),
{
    assert forall|k: int| 0 <= k < r.initial@.len() implies (#[trigger] r.initial@[k])
        < r.labels@.len() by {
        assert(r.initial@.contains(r.initial@[k]));
    }
    assert forall|q: int, k: int| 0 <= q < r.edges@.len() && 0 <= k < r.edges@[q]@.len() implies (
    #[trigger] r.edges@[q]@[k]) < r.labels@.len() by {
        assert(r.edges@[q]@.contains(r.edges@[q]@[k]));
    }
    assert forall|s: int, k: int| 0 <= s < r.accepting@.len() && 0 <= k < r.accepting@[s]@.len() implies (
    #[trigger] r.accepting@[s]@[k]) < r.labels@.len() by {
        if acc.len() > 0 {
            assert(acc[s]@.contains(acc[s]@[k]));
        }
    }
}

proof fn automaton_meaning(
    r: &Lgba,
    t: Seq<SubM>,
    ns: Seq<GN>,
    root: int,
    acc: Seq<Vec<usize>>,
    us: Seq<int>,
    w: Word,
)
    requires
        mirrors(r, t, ns, root, acc, us),
    ensures
        r.accepts(w) == sat(t, root, w, 0),
{
    if r.accepts(w) {
        let run = choose|run: spec_fn(nat) -> usize| #[trigger]
            r.runs(w, run) && forall|s: int|
                0 <= s < r.accepting@.len() ==> #[trigger] r.visits(s, run);
        assert(tab_run(t, ns, w, run)) by {
            assert forall|i: nat| (#[trigger] run(i)) < ns.len() by {}
            assert(r.initial@.contains(run(0)));
            assert forall|i: nat| #[trigger] moves_on(ns, run, i) by {
                assert(r.moves(run, i));
                assert(run(i) < ns.len());
            }
            assert forall|i: nat, x: int| 0 <= x < t.len() && #[trigger] ns[run(i) as int].old[x] && (
            t[x] is Atom || t[x] is NAtom) implies sat(t, x, w, i) by {
                assert(lits_hold(r.labels@[run(i) as int]@, w, i));
            }
        }
        assert forall|u: int| 0 <= u < t.len() && t[u] is U implies #[trigger] fair(t, ns, u, run) by {
            assert forall|i: nat| #[trigger] closes_from(t, ns, u, run, i) by {
                if us.contains(u) {
                    let s = choose|s: int| 0 <= s < us.len() && us[s] == u;
                    assert(r.visits(s, run));
                    assert(r.visits_from(s, run, i));
                    let j = choose|j: nat|
                        i <= j && r.accepting@[s]@.contains(#[trigger] run(j));
                    assert(acc[s]@.contains(run(j)));
                    assert(closes(t, ns[run(j) as int], u));
                } else {
                    assert(run(i) < ns.len());
                    assert(!ns[run(i) as int].old[u]);
                    assert(closes(t, ns[run(i) as int], u));
                }
            }
        }
        assert(r.initial@.contains(run(0)));
        assert(fed(t, ns, root, ns[run(0) as int]));
        sound(t, ns, root, w, run, root, 0);
    }
    if sat(t, root, w, 0) {
        let run = complete(t, ns, root, w);
        assert(r.runs(w, run)) by {
            assert(r.initial@.contains(run(0)));
            assert forall|i: nat| #[trigger] run(i) < r.labels@.len() && lits_hold(
                r.labels@[run(i) as int]@,
                w,
                i,
            ) by {
                assert(run(i) < ns.len());
                assert(forall|x: int|
                    0 <= x < t.len() && #[trigger] ns[run(i) as int].old[x] && (t[x] is Atom
                        || t[x] is NAtom) ==> sat(t, x, w, i));
            }
            assert forall|i: nat| #[trigger] r.moves(run, i) by {
                assert(run((i + 1) as nat) < ns.len());
                assert(run(i) < ns.len());
                assert(moves_on(ns, run, i));
            }
        }
        assert forall|s: int| 0 <= s < r.accepting@.len() implies #[trigger] r.visits(s, run) by {
            assert forall|i: nat| #[trigger] r.visits_from(s, run, i) by {
                if acc.len() == 0 {
                    assert(run(i) < ns.len());
                    assert(r.accepting@[0]@[run(i) as int] == run(i));
                    assert(r.accepting@[s]@.contains(run(i)));
                } else {
                    assert(fair(t, ns, us[s], run));
                    assert(closes_from(t, ns, us[s], run, i));
                    let j = choose|j: nat|
                        i <= j && closes(t, ns[(#[trigger] run(j)) as int], us[s]);
                    assert(run(j) < ns.len());
                    assert(acc[s]@.contains(run(j)));
                }
            }
        }
    }
}

/// The conjunction of literals as an expression.
pub fn label_expr(l: &Vec<Ltl>) -> (r: FExpr)
    requires
        forall|k: int| 0 <= k < l@.len() ==> is_literal((#[trigger] l@[k]).model()),
    ensures
        r.model() == fe_and(lit_exprs(l@)),
{
    let mut cs: Vec<FExpr> = Vec::new();
    let mut i: usize = 0;
    while i < l.len()
        invariant
            i <= l@.len(),
            cs@.len() == i,
            forall|k: int| 0 <= k < l@.len() ==> is_literal((#[trigger] l@[k]).model()),
            forall|k: int| 0 <= k < i ==> (#[trigger] cs@[k]).model() == lit_expr(l@[k].model()),
        decreases l.len() - i,
    {
        assert(is_literal(l@[i as int].model()));
        match &l[i] {
            Ltl::Atom(e) => {
                cs.push(e.clone());
            },
            Ltl::NAtom(e) => {
                cs.push(FExpr::not(e.clone()));
            },
            _ => {},
        }
        i += 1;
    }
    assert(fe_models(cs@) =~= lit_exprs(l@));
    FExpr::and(cs)
}

/// A literal as an expression.
pub open spec fn lit_expr(f: NN) -> FE {
    match f {
        NN::Atom(e) => e,
        NN::NAtom(e) => fe_not(e),
        _ => arbitrary(),
    }
}

/// Literals as expressions.
pub open spec fn lit_exprs(l: Seq<Ltl>) -> Seq<FE> {
    Seq::new(l.len(), |k: int| lit_expr(l[k].model()))
}

/// The expression of literals holds exactly where they all do.
pub proof fn label_meaning(l: Seq<Ltl>, w: Word, i: nat, env: Leaves)
    requires
        forall|k: int| 0 <= k < l.len() ==> is_literal((#[trigger] l[k]).model()),
        forall|e: FE| #[trigger] w(i, e) == holds(sem(e, env)),
    ensures
        holds(sem(fe_and(lit_exprs(l)), env)) == lits_hold(l, w, i),
{
    let es = lit_exprs(l);
    crate::fexpr::and_meaning(es, env);
    assert forall|k: int| 0 <= k < l.len() implies holds(#[trigger] sems(es, env)[k]) == nn_sat(
        l[k].model(),
        w,
    )(i) by {
        assert(is_literal(l[k].model()));
        match l[k].model() {
            NN::Atom(e) => {},
            NN::NAtom(e) => {
                not_meaning(e, env);
            },
            _ => {},
        }
    }
    if all_hold(sems(es, env)) {
        assert forall|k: int| 0 <= k < l.len() implies nn_sat((#[trigger] l[k]).model(), w)(i) by {
            assert(holds(sems(es, env)[k]));
        }
    }
}

} // verus!
