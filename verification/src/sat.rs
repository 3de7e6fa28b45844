//! Satisfiability, decided by `varisat`.

use crate::cnf::{clause_true, clauses_true, lit_true, Cnf, Lit, Model};
use varisat::ExtendFormula;
use vstd::prelude::*;

verus! {

/// A solver of `varisat`.
#[verifier::external_type_specification]
#[verifier::external_body]
pub struct ExSolver<'a>(varisat::Solver<'a>);

/// Why a solver of `varisat` gave up.
#[verifier::external_type_specification]
#[verifier::external_body]
pub struct ExSolverError(varisat::solver::SolverError);

/// The clauses that a solver holds.
pub uninterp spec fn held(s: varisat::Solver<'static>) -> Seq<Seq<Lit>>;

/// The number of variables that a solver takes.
pub const MAX_VARS: usize = 0x1000_0000;

/// All clauses hold.
pub open spec fn satisfied(cs: Seq<Seq<Lit>>, m: Model) -> bool {
    forall|k: int| 0 <= k < cs.len() ==> clause_true(#[trigger] cs[k], m)
}

/// `varisat::Solver::new`: a solver without clauses.
#[verifier::external_body]
fn solver_new() -> (r: varisat::Solver<'static>)
    ensures
        held(r) == Seq::<Seq<Lit>>::empty(),
{
    varisat::Solver::new()
}

/// `add_clause` of `varisat::ExtendFormula` on a solver: it holds one clause more.
#[verifier::external_body]
fn solver_add(s: &mut varisat::Solver<'static>, c: &Vec<Lit>)
    requires
        forall|i: int| 0 <= i < c@.len() ==> (#[trigger] c@[i]).var < MAX_VARS,
    ensures
        held(*final(s)) == held(*old(s)).push(c@),
{
    let lits: Vec<varisat::Lit> = c.iter().map(|l| varisat::Lit::from_index(l.var, !l.neg)).collect();
    s.add_clause(&lits);
}

/// `varisat::Solver::solve`, and `model` where it found one: the literals of the model satisfy the
/// clauses and do not contradict each other, or no assignment satisfies the clauses. `solve` works until
/// one of the two is settled; it fails only where a proof is written or checked, which a solver made by
/// `Solver::new` does not.
#[verifier::external_body]
fn solver_run(s: varisat::Solver<'static>) -> (r: Result<Option<Vec<Lit>>, varisat::solver::SolverError>)
    ensures
        match r {
            Ok(Some(m)) => {
                &&& forall|k: int|
                    0 <= k < held(s).len() ==> exists|i: int|
                        0 <= i < (#[trigger] held(s)[k]).len() && m@.contains(held(s)[k][i])
                &&& forall|i: int, j: int|
                    0 <= i < m@.len() && 0 <= j < m@.len() && m@[i].var == m@[j].var ==> (#[trigger] m@[i]).neg == (
                    #[trigger] m@[j]).neg
            },
            Ok(None) => forall|m: Model| !#[trigger] satisfied(held(s), m),
            Err(_) => false,
        },
{
    let mut s = s;
    if s.solve()? {
        let lits = s.model().unwrap_or_default();
        Ok(Some(lits.iter().map(|l| Lit { var: l.index(), neg: l.is_negative() }).collect()))
    } else {
        Ok(None)
    }
}

/// The truth values of a list.
pub open spec fn as_model(v: Seq<bool>) -> Model {
    |i: int| 0 <= i < v.len() && v[i]
}

/// Two to the power of `n`.
spec fn power(n: nat) -> nat
    decreases n,
{
    if n == 0 {
        1
    } else {
        2 * power((n - 1) as nat)
    }
}

/// The number whose binary digits are the first `n` truth values.
spec fn number(m: Model, n: nat) -> nat
    decreases n,
{
    if n == 0 {
        0
    } else {
        number(m, (n - 1) as nat) + if m(n - 1) {
            power((n - 1) as nat)
        } else {
            0
        }
    }
}

proof fn number_small(m: Model, n: nat)
    ensures
        number(m, n) < power(n),
    decreases n,
{
    if n > 0 {
        number_small(m, (n - 1) as nat);
    }
}

proof fn number_fixes(a: Model, b: Model, n: nat)
    requires
        number(a, n) == number(b, n),
    ensures
        forall|i: int| 0 <= i < n ==> #[trigger] a(i) == b(i),
    decreases n,
{
    if n > 0 {
        number_small(a, (n - 1) as nat);
        number_small(b, (n - 1) as nat);
        number_fixes(a, b, (n - 1) as nat);
    }
}

/// The digits from `i` on are the same; below, those of `a` are all set, those of `b` all clear.
proof fn number_next(a: Model, b: Model, i: nat, n: nat)
    requires
        i < n,
        forall|k: int| 0 <= k < i ==> #[trigger] a(k) && !b(k),
        !a(i as int),
        b(i as int),
        forall|k: int| i < k < n ==> #[trigger] a(k) == b(k),
    ensures
        number(b, n) == number(a, n) + 1,
    decreases n,
{
    if n == i + 1 {
        number_ends(a, b, i);
    } else {
        number_next(a, b, i, (n - 1) as nat);
        assert(a(n - 1) == b(n - 1));
    }
}

proof fn number_ends(a: Model, b: Model, i: nat)
    requires
        forall|k: int| 0 <= k < i ==> #[trigger] a(k) && !b(k),
    ensures
        number(a, i) + 1 == power(i),
        number(b, i) == 0,
    decreases i,
{
    if i > 0 {
        assert(a(i - 1) && !b(i - 1));
        number_ends(a, b, (i - 1) as nat);
    }
}

/// The clauses and the assumed literals hold.
spec fn fits(cs: Seq<Vec<Lit>>, assumed: Seq<Lit>, m: Model) -> bool {
    clauses_true(cs, m) && forall|i: int| 0 <= i < assumed.len() ==> lit_true(#[trigger] assumed[i], m)
}

/// The clauses and the assumed literals speak of the first `n` variables.
spec fn within(cs: Seq<Vec<Lit>>, assumed: Seq<Lit>, n: nat) -> bool {
    &&& forall|a: int, i: int| 0 <= a < cs.len() && 0 <= i < cs[a]@.len() ==> (#[trigger] cs[a]@[i]).var < n
    &&& forall|i: int| 0 <= i < assumed.len() ==> (#[trigger] assumed[i]).var < n
}

proof fn fits_alike(cs: Seq<Vec<Lit>>, assumed: Seq<Lit>, n: nat, a: Model, b: Model)
    requires
        within(cs, assumed, n),
        forall|i: int| 0 <= i < n ==> #[trigger] a(i) == b(i),
        fits(cs, assumed, a),
    ensures
        fits(cs, assumed, b),
{
    assert forall|k: int| 0 <= k < cs.len() implies clause_true((#[trigger] cs[k])@, b) by {
        let c = cs[k]@;
        assert(clause_true(c, a));
        let i = choose|i: int| 0 <= i < c.len() && lit_true(#[trigger] c[i], a);
        assert(cs[k]@[i].var < n);
        assert(lit_true(c[i], b));
    }
    assert forall|i: int| 0 <= i < assumed.len() implies lit_true(#[trigger] assumed[i], b) by {
        assert(lit_true(assumed[i], a));
    }
}

fn literal_holds(l: Lit, v: &Vec<bool>) -> (r: bool)
    requires
        l.var < v@.len(),
    ensures
        r == lit_true(l, as_model(v@)),
{
    v[l.var] != l.neg
}

fn clause_holds(c: &Vec<Lit>, v: &Vec<bool>) -> (r: bool)
    requires
        forall|i: int| 0 <= i < c@.len() ==> (#[trigger] c@[i]).var < v@.len(),
    ensures
        r == clause_true(c@, as_model(v@)),
{
    let mut i: usize = 0;
    while i < c.len()
        invariant
            i <= c@.len(),
            forall|k: int| 0 <= k < c@.len() ==> (#[trigger] c@[k]).var < v@.len(),
            forall|k: int| 0 <= k < i ==> !lit_true(#[trigger] c@[k], as_model(v@)),
        decreases c.len() - i,
    {
        if literal_holds(c[i], v) {
            return true;
        }
        i += 1;
    }
    false
}

fn all_hold(cs: &Vec<Vec<Lit>>, assumed: &Vec<Lit>, v: &Vec<bool>) -> (r: bool)
    requires
        within(cs@, assumed@, v@.len()),
    ensures
        r == fits(cs@, assumed@, as_model(v@)),
{
    let mut k: usize = 0;
    while k < cs.len()
        invariant
            k <= cs@.len(),
            within(cs@, assumed@, v@.len()),
            forall|a: int| 0 <= a < k ==> clause_true((#[trigger] cs@[a])@, as_model(v@)),
        decreases cs.len() - k,
    {
        if !clause_holds(&cs[k], v) {
            return false;
        }
        k += 1;
    }
    let mut i: usize = 0;
    while i < assumed.len()
        invariant
            i <= assumed@.len(),
            within(cs@, assumed@, v@.len()),
            forall|a: int| 0 <= a < i ==> lit_true(#[trigger] assumed@[a], as_model(v@)),
        decreases assumed.len() - i,
    {
        if !literal_holds(assumed[i], v) {
            return false;
        }
        i += 1;
    }
    true
}

/// Tries all truth values of the variables, one after the other: for more variables than a solver takes.
fn try_all(cs: &Vec<Vec<Lit>>, assumed: &Vec<Lit>, n: usize) -> (r: Option<Vec<bool>>)
    requires
        within(cs@, assumed@, n as nat),
    ensures
        match r {
            Some(v) => v@.len() == n && fits(cs@, assumed@, as_model(v@)),
            None => forall|m: Model| !#[trigger] fits(cs@, assumed@, m),
        },
{
    let mut v: Vec<bool> = Vec::new();
    while v.len() < n
        invariant
            v@.len() <= n,
            forall|k: int| 0 <= k < v@.len() ==> !#[trigger] v@[k],
        decreases n - v.len(),
    {
        v.push(false);
    }
    proof {
        number_clear(as_model(v@), n as nat);
    }
    loop
        invariant
            v@.len() == n,
            within(cs@, assumed@, n as nat),
            forall|m: Model|
                number(m, n as nat) < number(as_model(v@), n as nat) ==> !#[trigger] fits(cs@, assumed@, m),
        decreases power(n as nat) - number(as_model(v@), n as nat),
    {
        if all_hold(cs, assumed, &v) {
            return Some(v);
        }
        let ghost a = as_model(v@);
        let ghost v0 = v@;
        proof {
            assert forall|m: Model| number(m, n as nat) <= number(a, n as nat) implies !#[trigger] fits(
                cs@,
                assumed@,
                m,
            ) by {
                if number(m, n as nat) == number(a, n as nat) && fits(cs@, assumed@, m) {
                    number_fixes(m, a, n as nat);
                    fits_alike(cs@, assumed@, n as nat, m, a);
                }
            }
        }
        let mut i: usize = 0;
        while i < n && v[i]
            invariant
                i <= n,
                v@.len() == n,
                v0.len() == n,
                forall|k: int| 0 <= k < i ==> #[trigger] v0[k],
                forall|k: int| 0 <= k < i ==> !#[trigger] v@[k],
                forall|k: int| i <= k < n ==> #[trigger] v@[k] == v0[k],
            decreases n - i,
        {
            assert(v@[i as int] == v0[i as int]);
            v.set(i, false);
            i += 1;
        }
        if i == n {
            proof {
                let none = |k: int| false;
                assert forall|k: int| 0 <= k < n implies #[trigger] a(k) && !none(k) by {
                    assert(!v@[k]);
                }
                number_ends(a, none, n as nat);
                assert forall|m: Model| !#[trigger] fits(cs@, assumed@, m) by {
                    number_small(m, n as nat);
                }
            }
            return None;
        }
        v.set(i, true);
        proof {
            let b = as_model(v@);
            assert forall|k: int| 0 <= k < i implies #[trigger] a(k) && !b(k) by {
                assert(!v@[k]);
            }
            assert forall|k: int| i < k < n implies #[trigger] a(k) == b(k) by {
                assert(v@[k] == v0[k]);
            }
            number_next(a, b, i as nat, n as nat);
            number_small(b, n as nat);
        }
    }
}

proof fn number_clear(m: Model, n: nat)
    requires
        forall|k: int| 0 <= k < n ==> !#[trigger] m(k),
    ensures
        number(m, n) == 0,
    decreases n,
{
    if n > 0 {
        assert(!m(n - 1));
        number_clear(m, (n - 1) as nat);
    }
}

/// Finds truth values for the variables under which the clauses and the assumed literals hold, if
/// there are any.
pub fn solve(cnf: &Cnf, assumed: &Vec<Lit>) -> (r: Option<Vec<bool>>)
    requires
        cnf.wf(),
        forall|i: int| 0 <= i < assumed@.len() ==> cnf.valid(#[trigger] assumed@[i]),
    ensures
        match r {
            Some(m) => {
                &&& m@.len() == cnf.count()
                &&& clauses_true(cnf@, as_model(m@))
                &&& forall|i: int| 0 <= i < assumed@.len() ==> lit_true(#[trigger] assumed@[i], as_model(m@))
            },
            None => forall|m: Model| #[trigger]
                clauses_true(cnf@, m) ==> exists|i: int|
                    0 <= i < assumed@.len() && !lit_true(#[trigger] assumed@[i], m),
        },
{
    let n: usize = cnf.size();
    proof {
        cnf.clause_range();
        assert forall|i: int| 0 <= i < assumed@.len() implies (#[trigger] assumed@[i]).var < n by {
            assert(cnf.valid(assumed@[i]));
        }
    }
    if n > MAX_VARS {
        let r = try_all(cnf.clauses(), assumed, n);
        proof {
            if r is None {
                assert forall|m: Model| #[trigger] clauses_true(cnf@, m) implies exists|i: int|
                    0 <= i < assumed@.len() && !lit_true(#[trigger] assumed@[i], m) by {
                    assert(!fits(cnf@, assumed@, m));
                }
            }
        }
        return r;
    }
    let cs = cnf.clauses();
    proof {
        cnf.clause_range();
    }
    let mut s = solver_new();
    let mut k: usize = 0;
    while k < cs.len()
        invariant
            k <= cs@.len(),
            cs@ == cnf@,
            n == cnf.count(),
            n <= MAX_VARS,
            forall|a: int, i: int|
                0 <= a < cnf@.len() && 0 <= i < cnf@[a]@.len() ==> (#[trigger] cnf@[a]@[i]).var < cnf.count(),
            held(s).len() == k,
            forall|a: int| 0 <= a < k ==> #[trigger] held(s)[a] == cs@[a]@,
        decreases cs.len() - k,
    {
        proof {
            assert forall|i: int| 0 <= i < cs@[k as int]@.len() implies (#[trigger] cs@[k as int]@[i]).var < MAX_VARS by {
                assert(cnf@[k as int]@[i].var < cnf.count());
            }
        }
        solver_add(&mut s, &cs[k]);
        k += 1;
    }
    let mut j: usize = 0;
    while j < assumed.len()
        invariant
            j <= assumed@.len(),
            cs@ == cnf@,
            n == cnf.count(),
            n <= MAX_VARS,
            forall|i: int| 0 <= i < assumed@.len() ==> cnf.valid(#[trigger] assumed@[i]),
            held(s).len() == cs@.len() + j,
            forall|a: int| 0 <= a < cs@.len() ==> #[trigger] held(s)[a] == cs@[a]@,
            forall|a: int| 0 <= a < j ==> #[trigger] held(s)[cs@.len() + a] == seq![assumed@[a]],
        decreases assumed.len() - j,
    {
        let ghost before = held(s);
        let mut c: Vec<Lit> = Vec::new();
        c.push(assumed[j]);
        proof {
            assert(cnf.valid(assumed@[j as int]));
            assert(c@ =~= seq![assumed@[j as int]]);
        }
        solver_add(&mut s, &c);
        proof {
            assert forall|a: int| 0 <= a < j + 1 implies #[trigger] held(s)[cs@.len() + a] == seq![assumed@[a]] by {
                if a < j {
                    assert(before[cs@.len() + a] == seq![assumed@[a]]);
                }
            }
        }
        j += 1;
    }
    let ghost all = held(s);
    match solver_run(s) {
        Err(_) => None,
        Ok(None) => {
            proof {
                assert forall|m: Model| #[trigger] clauses_true(cnf@, m) implies exists|i: int|
                    0 <= i < assumed@.len() && !lit_true(#[trigger] assumed@[i], m) by {
                    assert(!satisfied(all, m));
                    let k = choose|k: int| 0 <= k < all.len() && !clause_true(#[trigger] all[k], m);
                    if k < cs@.len() {
                        assert(clause_true(cnf@[k]@, m));
                    } else {
                        let a = k - cs@.len();
                        assert(all[cs@.len() + a] == seq![assumed@[a]]);
                        if lit_true(assumed@[a], m) {
                            assert(lit_true(all[k][0], m));
                        }
                    }
                }
            }
            None
        },
        Ok(Some(lits)) => {
            let mut v: Vec<bool> = Vec::new();
            let mut i: usize = 0;
            while i < n
                invariant
                    i <= n,
                    v@.len() == i,
                    forall|a: int| 0 <= a < i ==> !#[trigger] v@[a],
                decreases n - i,
            {
                v.push(false);
                i += 1;
            }
            let mut i: usize = 0;
            while i < lits.len()
                invariant
                    i <= lits@.len(),
                    v@.len() == n,
                    forall|a: int|
                        0 <= a < n ==> #[trigger] v@[a] == exists|b: int|
                            0 <= b < i && (#[trigger] lits@[b]).var == a && !lits@[b].neg,
                decreases lits.len() - i,
            {
                let l = lits[i];
                let ghost v0 = v@;
                if !l.neg && l.var < n {
                    v.set(l.var, true);
                }
                proof {
                    assert forall|a: int| 0 <= a < n implies #[trigger] v@[a] == exists|b: int|
                        0 <= b < i + 1 && (#[trigger] lits@[b]).var == a && !lits@[b].neg by {
                        assert(v0[a] == exists|b: int| 0 <= b < i && (#[trigger] lits@[b]).var == a && !lits@[b].neg);
                        if v@[a] && !v0[a] {
                            assert(lits@[i as int].var == a);
                        }
                        if exists|b: int| 0 <= b < i + 1 && (#[trigger] lits@[b]).var == a && !lits@[b].neg {
                            let b = choose|b: int|
                                0 <= b < i + 1 && (#[trigger] lits@[b]).var == a && !lits@[b].neg;
                            if b < i {
                                assert(v0[a]);
                            }
                        }
                        if v0[a] {
                            let b = choose|b: int| 0 <= b < i && (#[trigger] lits@[b]).var == a && !lits@[b].neg;
                            assert(0 <= b < i + 1);
                        }
                    }
                }
                i += 1;
            }
            proof {
                let m = as_model(v@);
                assert forall|l: Lit| lits@.contains(l) && l.var < n implies #[trigger] lit_true(l, m) by {
                    let b = choose|b: int| 0 <= b < lits@.len() && lits@[b] == l;
                    if v@[l.var as int] {
                        let c = choose|c: int|
                            0 <= c < lits@.len() && (#[trigger] lits@[c]).var == l.var && !lits@[c].neg;
                        assert(lits@[b].neg == lits@[c].neg);
                    } else if !l.neg {
                        assert(lits@[b].var == l.var && !lits@[b].neg);
                    }
                }
                assert forall|k: int| 0 <= k < cnf@.len() implies clause_true((#[trigger] cnf@[k])@, m) by {
                    let c = all[k];
                    assert(c == cnf@[k]@);
                    let i = choose|i: int| 0 <= i < c.len() && lits@.contains(c[i]);
                    assert(cnf@[k]@[i].var < cnf.count());
                    assert(lit_true(c[i], m));
                }
                assert forall|a: int| 0 <= a < assumed@.len() implies lit_true(#[trigger] assumed@[a], m) by {
                    let c = all[cs@.len() + a];
                    assert(c == seq![assumed@[a]]);
                    let i = choose|i: int| 0 <= i < c.len() && lits@.contains(c[i]);
                    assert(cnf.valid(assumed@[a]));
                    assert(lit_true(c[0], m));
                }
            }
            Some(v)
        },
    }
}

} // verus!
