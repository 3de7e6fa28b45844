//! What the functions of the prelude and the sets mean.

use crate::builtins::{binary, builtin_value, connected, unary};
use crate::calc::{chain, listed, shifted, size_of};
use crate::connectives::{counts, says};
use crate::fexpr::{
    and_meaning, eq_meaning, fe_and, fe_eq, fe_or, holds, ite_meaning, not_meaning, or_meaning, sem, sems,
    some_holds, Leaves, FE,
};
use crate::flat::{State, Sys};
use crate::formula::TF;
use crate::judgement::World;
use crate::ltl::{lt_until, tf_sat};
use crate::meaning::{v_apply, v_member, v_ring, Calc};
use crate::num::Q;
use crate::operators::{condition, formula, lifted, numeric};
use crate::span::Span;
use crate::sval::{eq_tells, mean, sv_eq, SetV, SV};
use crate::symbolic::word_of;
use crate::temporal::{ctl, sp_all, sp_endless, sp_eu, sp_ex, sp_hops, sp_not, sp_until, sp_until_set, Trace, SP};
use crate::types::Tid;
use crate::value::Val;
use vstd::prelude::*;

verus! {

/// The result is a formula that holds of the trace at the time exactly if `b`.
pub open spec fn told(r: Result<SV, Seq<char>>, tr: Trace, i: nat, b: bool) -> bool {
    r matches Ok(v) && (v matches SV::Formula(h) && tf_sat(h, word_of(tr))(i) == b)
}

/// The times at which a symbolic truth value or formula holds of a trace.
pub open spec fn times_of(a: SV, tr: Trace) -> spec_fn(nat) -> bool {
    tf_sat(formula(a)->0, word_of(tr))
}

proof fn short_names()
    ensures
        "X"@ != "G"@ && "X"@ != "F"@ && "G"@ != "F"@,
        "U"@ != "W"@ && "U"@ != "R"@ && "U"@ != "M"@ && "W"@ != "R"@ && "W"@ != "M"@ && "R"@ != "M"@,
        forall|s: Seq<char>| s == "X"@ || s == "G"@ || s == "F"@ ==> #[trigger] s.len() == 1,
        forall|s: Seq<char>| s == "U"@ || s == "W"@ || s == "R"@ || s == "M"@ ==> #[trigger] s.len() == 1,
{
    reveal_strlit("X");
    reveal_strlit("G");
    reveal_strlit("F");
    reveal_strlit("U");
    reveal_strlit("W");
    reveal_strlit("R");
    reveal_strlit("M");
    assert("X"@[0] == 'X' && "G"@[0] == 'G' && "F"@[0] == 'F');
    assert("U"@[0] == 'U' && "W"@[0] == 'W' && "R"@[0] == 'R' && "M"@[0] == 'M');
}

proof fn single_letters()
    ensures
        forall|s: Seq<char>| #[trigger] s.len() == 1 && (s == "U"@ || s == "W"@ || s == "R"@ || s == "M"@) ==> unary(
            s,
            TF::Atom(crate::fexpr::fe_bool(true)),
        ) is None,
        "X"@ != "U"@ && "X"@ != "W"@ && "X"@ != "R"@ && "X"@ != "M"@,
        "G"@ != "U"@ && "G"@ != "W"@ && "G"@ != "R"@ && "G"@ != "M"@,
        "F"@ != "U"@ && "F"@ != "W"@ && "F"@ != "R"@ && "F"@ != "M"@,
        "min"@.len() == 3 && "max"@.len() == 3 && "exp"@.len() == 3 && "nor"@.len() == 3 && "nand"@.len() == 4
            && "xnor"@.len() == 4,
        "U"@.len() == 1 && "W"@.len() == 1 && "R"@.len() == 1 && "M"@.len() == 1,
{
    reveal_strlit("X");
    reveal_strlit("G");
    reveal_strlit("F");
    reveal_strlit("U");
    reveal_strlit("W");
    reveal_strlit("R");
    reveal_strlit("M");
    reveal_strlit("EX");
    reveal_strlit("AX");
    reveal_strlit("EG");
    reveal_strlit("AG");
    reveal_strlit("EF");
    reveal_strlit("AF");
    reveal_strlit("accepting");
    reveal_strlit("min");
    reveal_strlit("max");
    reveal_strlit("exp");
    reveal_strlit("nor");
    reveal_strlit("nand");
    reveal_strlit("xnor");
    assert("X"@[0] == 'X' && "G"@[0] == 'G' && "F"@[0] == 'F');
    assert("U"@[0] == 'U' && "W"@[0] == 'W' && "R"@[0] == 'R' && "M"@[0] == 'M');
    assert("EX"@.len() == 2 && "AX"@.len() == 2 && "EG"@.len() == 2 && "AG"@.len() == 2 && "EF"@.len() == 2 && "AF"@.len() == 2);
    assert("accepting"@.len() == 9);
}

/// `X`, `G` and `F` hold at a time where their argument holds at the next time, at all times from then on, and at some
/// time from then on.
pub proof fn single_time_law(a: SV, tr: Trace, i: nat)
    requires
        formula(a) is Some,
    ensures
        told(builtin_value("X"@, seq![a]), tr, i, times_of(a, tr)(i + 1)),
        told(builtin_value("G"@, seq![a]), tr, i, forall|j: nat| i <= j ==> #[trigger] times_of(a, tr)(j)),
        told(builtin_value("F"@, seq![a]), tr, i, exists|j: nat| i <= j && #[trigger] times_of(a, tr)(j)),
{
    short_names();
    reveal_with_fuel(tf_sat, 2);
    let args = seq![a];
    assert(args.len() == 1 && args[0] == a);
    let f = formula(a)->0;
    let p = times_of(a, tr);
    assert(unary("X"@, f) == Some(TF::X(Box::new(f))));
    assert(unary("G"@, f) == Some(TF::G(Box::new(f))));
    assert(unary("F"@, f) == Some(TF::F(Box::new(f))));
    let w = word_of(tr);
    assert(tf_sat(TF::G(Box::new(f)), w)(i) == forall|j: nat| i <= j ==> #[trigger] p(j));
    assert(tf_sat(TF::F(Box::new(f)), w)(i) == exists|j: nat| i <= j && #[trigger] p(j));
}

/// `U` holds where its second argument holds some time and the first until then, `W` also where the first holds for
/// ever. `R` holds where the second holds at each time before which the first has not held, and `M` where besides the
/// first holds some time.
pub proof fn pair_time_law(a: SV, b: SV, tr: Trace, i: nat)
    requires
        formula(a) is Some,
        formula(b) is Some,
    ensures
        told(
            builtin_value("U"@, seq![a, b]),
            tr,
            i,
            exists|j: nat|
                i <= j && #[trigger] times_of(b, tr)(j) && forall|l: nat| i <= l < j ==> #[trigger] times_of(a, tr)(l),
        ),
        told(
            builtin_value("W"@, seq![a, b]),
            tr,
            i,
            (forall|l: nat| i <= l ==> #[trigger] times_of(a, tr)(l)) || exists|j: nat|
                i <= j && #[trigger] times_of(b, tr)(j) && forall|l: nat| i <= l < j ==> #[trigger] times_of(a, tr)(l),
        ),
        told(
            builtin_value("R"@, seq![a, b]),
            tr,
            i,
            forall|j: nat|
                i <= j ==> #[trigger] times_of(b, tr)(j) || exists|l: nat| i <= l < j && #[trigger] times_of(a, tr)(l),
        ),
        told(
            builtin_value("M"@, seq![a, b]),
            tr,
            i,
            exists|j: nat|
                i <= j && #[trigger] times_of(a, tr)(j) && forall|l: nat| i <= l <= j ==> #[trigger] times_of(b, tr)(l),
        ),
{
    short_names();
    single_letters();
    reveal_with_fuel(tf_sat, 2);
    let args = seq![a, b];
    assert(args.len() == 2 && args[0] == a && args[1] == b);
    let p = times_of(a, tr);
    let q = times_of(b, tr);
    let m = |j: nat| p(j) && q(j);
    if lt_until(q, m, i) {
        let j = choose|j: nat| i <= j && #[trigger] m(j) && forall|l: nat| i <= l < j ==> #[trigger] q(l);
        assert(p(j));
    }
    if exists|j: nat| i <= j && #[trigger] p(j) && forall|l: nat| i <= l <= j ==> #[trigger] q(l) {
        let j = choose|j: nat| i <= j && #[trigger] p(j) && forall|l: nat| i <= l <= j ==> #[trigger] q(l);
        assert(q(j));
        assert(m(j));
    }
}

/// The states lead one to the next, all but the last in `p`, and the last in `q`.
pub open spec fn passes(sys: Sys, p: SP, q: SP, path: Seq<State>) -> bool {
    &&& path.len() > 0
    &&& forall|i: int| 0 <= i < path.len() - 1 ==> p(#[trigger] path[i]) && sys.step(path[i], path[i + 1])
    &&& q(path.last())
}

proof fn path_of(sys: Sys, p: SP, q: SP, k: nat, s: State) -> (path: Seq<State>)
    requires
        sp_until(sys, p, q, k, s),
    ensures
        passes(sys, p, q, path),
        path[0] == s,
    decreases k,
{
    reveal_with_fuel(sp_until_set, 2);
    if k == 0 {
        seq![s]
    } else {
        let h = sp_until_set(sys, p, q, (k - 1) as nat);
        let t = choose|t: State| #[trigger] sys.step(s, t) && h(t);
        let rest = path_of(sys, p, q, (k - 1) as nat, t);
        let path = seq![s] + rest;
        assert forall|i: int| 0 <= i < path.len() - 1 implies p(#[trigger] path[i]) && sys.step(path[i], path[i + 1]) by {
            if i > 0 {
                assert(path[i] == rest[i - 1] && path[i + 1] == rest[i]);
            } else {
                assert(path[1] == rest[0]);
            }
        }
        assert(path.last() == rest.last());
        path
    }
}

proof fn until_of(sys: Sys, p: SP, q: SP, path: Seq<State>)
    requires
        passes(sys, p, q, path),
    ensures
        sp_until(sys, p, q, (path.len() - 1) as nat, path[0]),
    decreases path.len(),
{
    reveal_with_fuel(sp_until_set, 2);
    if path.len() > 1 {
        let rest = path.skip(1);
        assert forall|i: int| 0 <= i < rest.len() - 1 implies p(#[trigger] rest[i]) && sys.step(rest[i], rest[i + 1]) by {
            assert(rest[i] == path[i + 1] && rest[i + 1] == path[i + 2]);
        }
        assert(rest.last() == path.last());
        until_of(sys, p, q, rest);
        assert(p(path[0]) && sys.step(path[0], path[1]));
        assert(rest[0] == path[1]);
        let h = sp_until_set(sys, p, q, (path.len() - 2) as nat);
        assert(h(path[1]));
    }
}

/// Some path from the state passes through `p` to `q`.
pub open spec fn some_pass(sys: Sys, p: SP, q: SP, s: State) -> bool {
    exists|path: Seq<State>| #[trigger] passes(sys, p, q, path) && path[0] == s
}

proof fn reach_path(sys: Sys, p: SP, q: SP, s: State)
    ensures
        sp_eu(sys, p, q, s) == some_pass(sys, p, q, s),
{
    if sp_eu(sys, p, q, s) {
        let k = choose|k: nat| #[trigger] sp_until(sys, p, q, k, s);
        let path = path_of(sys, p, q, k, s);
        assert(passes(sys, p, q, path));
    }
    if some_pass(sys, p, q, s) {
        let path = choose|path: Seq<State>| #[trigger] passes(sys, p, q, path) && path[0] == s;
        until_of(sys, p, q, path);
    }
}

/// The states of an endless path that starts at the state.
pub open spec fn endless_from(sys: Sys, path: Trace, s: State) -> bool {
    path(0) == s && forall|i: nat| #[trigger] sys.step(path(i), path(i + 1))
}

/// The result is a formula that holds in the state exactly if `b`.
pub open spec fn decides(r: Result<SV, Seq<char>>, sys: Sys, s: State, b: bool) -> bool {
    r matches Ok(v) && (v matches SV::Formula(h) && ctl(sys, h)(s) == b)
}

/// The states in which a symbolic truth value or formula holds.
pub open spec fn states_of(a: SV, sys: Sys) -> SP {
    ctl(sys, formula(a)->0)
}

proof fn branch_names()
    ensures
        "EX"@ != "AX"@ && "EX"@ != "EG"@ && "EX"@ != "AG"@ && "EX"@ != "EF"@ && "EX"@ != "AF"@,
        "AX"@ != "EG"@ && "AX"@ != "AG"@ && "AX"@ != "EF"@ && "AX"@ != "AF"@,
        "EG"@ != "AG"@ && "EG"@ != "EF"@ && "EG"@ != "AF"@,
        "AG"@ != "EF"@ && "AG"@ != "AF"@,
        "EF"@ != "AF"@,
        "EU"@ != "AU"@ && "EU"@ != "ER"@ && "EU"@ != "AR"@ && "AU"@ != "ER"@ && "AU"@ != "AR"@ && "ER"@ != "AR"@,
        "EX"@.len() == 2 && "AX"@.len() == 2 && "EG"@.len() == 2 && "AG"@.len() == 2 && "EF"@.len() == 2 && "AF"@.len()
            == 2,
        "X"@.len() == 1 && "G"@.len() == 1 && "F"@.len() == 1 && "accepting"@.len() == 9,
        forall|s: Seq<char>| s == "EU"@ || s == "AU"@ || s == "ER"@ || s == "AR"@ ==> #[trigger] s.len() == 2 && s[1]
            != 'X' && s[1] != 'G' && s[1] != 'F',
        "EX"@[1] == 'X' && "AX"@[1] == 'X' && "EG"@[1] == 'G' && "AG"@[1] == 'G' && "EF"@[1] == 'F' && "AF"@[1] == 'F',
{
    reveal_strlit("X");
    reveal_strlit("G");
    reveal_strlit("F");
    reveal_strlit("EX");
    reveal_strlit("AX");
    reveal_strlit("EG");
    reveal_strlit("AG");
    reveal_strlit("EF");
    reveal_strlit("AF");
    reveal_strlit("EU");
    reveal_strlit("AU");
    reveal_strlit("ER");
    reveal_strlit("AR");
    reveal_strlit("accepting");
    assert("EX"@[0] == 'E' && "AX"@[0] == 'A' && "EG"@[0] == 'E' && "AG"@[0] == 'A' && "EF"@[0] == 'E' && "AF"@[0]
        == 'A');
    assert("EX"@[1] == 'X' && "AX"@[1] == 'X' && "EG"@[1] == 'G' && "AG"@[1] == 'G' && "EF"@[1] == 'F' && "AF"@[1]
        == 'F');
    assert("EU"@[0] == 'E' && "AU"@[0] == 'A' && "ER"@[0] == 'E' && "AR"@[0] == 'A');
    assert("EU"@[1] == 'U' && "AU"@[1] == 'U' && "ER"@[1] == 'R' && "AR"@[1] == 'R');
}

/// `EX` and `AX` speak of the next states, `EF` and `AG` of the states that paths lead to, `EG` and `AF` of endless
/// paths.
pub proof fn single_path_law(a: SV, sys: Sys, s: State)
    requires
        formula(a) is Some,
    ensures
        decides(builtin_value("EX"@, seq![a]), sys, s, exists|t: State| #[trigger] sys.step(s, t) && states_of(a, sys)(t)),
        decides(builtin_value("AX"@, seq![a]), sys, s, forall|t: State| #[trigger] sys.step(s, t) ==> states_of(a, sys)(t)),
        decides(
            builtin_value("EF"@, seq![a]),
            sys,
            s,
            exists|p: Seq<State>| p.len() > 0 && #[trigger] sys.chain(p) && p[0] == s && states_of(a, sys)(p.last()),
        ),
        decides(
            builtin_value("AG"@, seq![a]),
            sys,
            s,
            forall|p: Seq<State>| p.len() > 0 && #[trigger] sys.chain(p) && p[0] == s ==> states_of(a, sys)(p.last()),
        ),
        decides(
            builtin_value("EG"@, seq![a]),
            sys,
            s,
            exists|p: Trace| #[trigger] endless_from(sys, p, s) && forall|i: nat| states_of(a, sys)(#[trigger] p(i)),
        ),
        decides(
            builtin_value("AF"@, seq![a]),
            sys,
            s,
            forall|p: Trace| #[trigger] endless_from(sys, p, s) ==> exists|i: nat| states_of(a, sys)(#[trigger] p(i)),
        ),
{
    branch_names();
    let args = seq![a];
    assert(args.len() == 1 && args[0] == a);
    let f = formula(a)->0;
    let x = states_of(a, sys);
    assert(unary("EX"@, f) == Some(TF::EX(Box::new(f))));
    assert(unary("AX"@, f) == Some(TF::AX(Box::new(f))));
    assert(unary("EF"@, f) == Some(TF::EF(Box::new(f))));
    assert(unary("AG"@, f) == Some(TF::AG(Box::new(f))));
    assert(unary("EG"@, f) == Some(TF::EG(Box::new(f))));
    assert(unary("AF"@, f) == Some(TF::AF(Box::new(f))));
    reveal_with_fuel(ctl, 2);
    finds_path(sys, x, s);
    finds_path(sys, sp_not(x), s);
    endless_path(sys, x, s);
    endless_path(sys, sp_not(x), s);
    if sp_ex(sys, sp_not(x), s) {
        let t = choose|t: State| #[trigger] sys.step(s, t) && sp_not(x)(t);
        assert(!x(t));
    } else {
        assert forall|t: State| #[trigger] sys.step(s, t) implies x(t) by {
            assert(!sp_not(x)(t));
        }
    }
    if sp_eu(sys, sp_all(), sp_not(x), s) {
        let p = choose|p: Seq<State>| p.len() > 0 && #[trigger] sys.chain(p) && p[0] == s && sp_not(x)(p.last());
        assert(!x(p.last()));
    } else {
        assert forall|p: Seq<State>| p.len() > 0 && #[trigger] sys.chain(p) && p[0] == s implies x(p.last()) by {
            assert(!sp_not(x)(p.last()));
        }
    }
    if crate::temporal::sp_eg(sys, sp_not(x), s) {
        let p = choose|p: Trace| #[trigger] endless_from(sys, p, s) && forall|i: nat| sp_not(x)(#[trigger] p(i));
        assert forall|i: nat| !x(#[trigger] p(i)) by {
            assert(sp_not(x)(p(i)));
        }
    } else {
        assert forall|p: Trace| #[trigger] endless_from(sys, p, s) implies exists|i: nat| x(#[trigger] p(i)) by {
            let i = choose|i: nat| !sp_not(x)(#[trigger] p(i));
            assert(x(p(i)));
        }
    }
}

proof fn finds_path(sys: Sys, x: SP, s: State)
    ensures
        sp_eu(sys, sp_all(), x, s) == exists|p: Seq<State>|
            p.len() > 0 && #[trigger] sys.chain(p) && p[0] == s && x(p.last()),
{
    reach_path(sys, sp_all(), x, s);
    if sp_eu(sys, sp_all(), x, s) {
        let p = choose|path: Seq<State>| #[trigger] passes(sys, sp_all(), x, path) && path[0] == s;
        assert(sys.chain(p));
    }
    if exists|p: Seq<State>| p.len() > 0 && #[trigger] sys.chain(p) && p[0] == s && x(p.last()) {
        let p = choose|p: Seq<State>| p.len() > 0 && #[trigger] sys.chain(p) && p[0] == s && x(p.last());
        assert(passes(sys, sp_all(), x, p));
    }
}

proof fn endless_path(sys: Sys, x: SP, s: State)
    ensures
        crate::temporal::sp_eg(sys, x, s) == exists|p: Trace| #[trigger]
            endless_from(sys, p, s) && forall|i: nat| x(#[trigger] p(i)),
{
    if crate::temporal::sp_eg(sys, x, s) {
        let p = choose|p: Trace| #[trigger] sp_endless(sys, x, p) && p(0) == s;
        assert forall|i: nat| #[trigger] sys.step(p(i), p(i + 1)) by {
            assert(sp_hops(sys, p, i));
        }
        assert(endless_from(sys, p, s));
    }
    if exists|p: Trace| #[trigger] endless_from(sys, p, s) && forall|i: nat| x(#[trigger] p(i)) {
        let p = choose|p: Trace| #[trigger] endless_from(sys, p, s) && forall|i: nat| x(#[trigger] p(i));
        assert forall|i: nat| #[trigger] sp_hops(sys, p, i) by {
            assert(sys.step(p(i), p(i + 1)));
        }
        assert(sp_endless(sys, x, p));
    }
}

proof fn pass_same(sys: Sys, p: SP, q: SP, x: SP, y: SP, s: State)
    requires
        forall|t: State| #[trigger] p(t) == x(t),
        forall|t: State| #[trigger] q(t) == y(t),
    ensures
        some_pass(sys, p, q, s) ==> some_pass(sys, x, y, s),
{
    if some_pass(sys, p, q, s) {
        let path = choose|path: Seq<State>| #[trigger] passes(sys, p, q, path) && path[0] == s;
        assert forall|i: int| 0 <= i < path.len() - 1 implies x(#[trigger] path[i]) && sys.step(path[i], path[i + 1]) by {
            assert(p(path[i]));
        }
        assert(q(path.last()));
        assert(passes(sys, x, y, path));
    }
}

/// Some endless path from the state stays in `p`.
pub open spec fn some_stay(sys: Sys, p: SP, s: State) -> bool {
    exists|path: Trace| #[trigger] endless_from(sys, path, s) && forall|i: nat| p(#[trigger] path(i))
}

/// `EU` holds where some path passes through states of the first argument to one of the second, and `AR` where every
/// path that comes to a state outside the second has passed a state of the first. `AU` holds where no path leaves the
/// first before it comes to the second and none avoids the second for ever, and `ER` where some path stays in the second
/// until it comes to a state of both, or for ever.
pub proof fn pair_path_law(a: SV, b: SV, sys: Sys, s: State)
    requires
        formula(a) is Some,
        formula(b) is Some,
    ensures
        ({
            let p = states_of(a, sys);
            let q = states_of(b, sys);
            &&& decides(builtin_value("EU"@, seq![a, b]), sys, s, some_pass(sys, p, q, s))
            &&& decides(
                builtin_value("AR"@, seq![a, b]),
                sys,
                s,
                !some_pass(sys, |t: State| !p(t), |t: State| !q(t), s),
            )
            &&& decides(
                builtin_value("AU"@, seq![a, b]),
                sys,
                s,
                !some_pass(sys, |t: State| !q(t), |t: State| !p(t) && !q(t), s) && !some_stay(sys, |t: State| !q(t), s),
            )
            &&& decides(
                builtin_value("ER"@, seq![a, b]),
                sys,
                s,
                some_pass(sys, q, |t: State| p(t) && q(t), s) || some_stay(sys, q, s),
            )
        }),
{
    branch_names();
    long_names();
    let args = seq![a, b];
    assert(args.len() == 2 && args[0] == a && args[1] == b);
    let f = formula(a)->0;
    let g = formula(b)->0;
    assert(binary("EU"@, f, g) == Some(TF::EU(Box::new(f), Box::new(g))));
    assert(binary("AU"@, f, g) == Some(TF::AU(Box::new(f), Box::new(g))));
    assert(binary("ER"@, f, g) == Some(TF::ER(Box::new(f), Box::new(g))));
    assert(binary("AR"@, f, g) == Some(TF::AR(Box::new(f), Box::new(g))));
    reveal_with_fuel(ctl, 2);
    let p = states_of(a, sys);
    let q = states_of(b, sys);
    let np = sp_not(p);
    let nq = sp_not(q);
    let neither = crate::temporal::sp_and(np, nq);
    let both = crate::temporal::sp_and(sp_not(np), sp_not(nq));
    reach_path(sys, p, q, s);
    reach_path(sys, np, nq, s);
    reach_path(sys, nq, neither, s);
    reach_path(sys, sp_not(nq), both, s);
    endless_path(sys, nq, s);
    endless_path(sys, sp_not(nq), s);
    let mp = |t: State| !p(t);
    let mq = |t: State| !q(t);
    let mn = |t: State| !p(t) && !q(t);
    let mb = |t: State| p(t) && q(t);
    pass_same(sys, np, nq, mp, mq, s);
    pass_same(sys, mp, mq, np, nq, s);
    pass_same(sys, nq, neither, mq, mn, s);
    pass_same(sys, mq, mn, nq, neither, s);
    pass_same(sys, sp_not(nq), both, q, mb, s);
    pass_same(sys, q, mb, sp_not(nq), both, s);
    stay_same(sys, nq, mq, s);
    stay_same(sys, mq, nq, s);
    stay_same(sys, sp_not(nq), q, s);
    stay_same(sys, q, sp_not(nq), s);
}

proof fn stay_same(sys: Sys, p: SP, x: SP, s: State)
    requires
        forall|t: State| #[trigger] p(t) == x(t),
    ensures
        some_stay(sys, p, s) ==> some_stay(sys, x, s),
{
    if some_stay(sys, p, s) {
        let path = choose|path: Trace| #[trigger] endless_from(sys, path, s) && forall|i: nat| p(#[trigger] path(i));
        assert forall|i: nat| x(#[trigger] path(i)) by {
            assert(p(path(i)));
        }
    }
}

proof fn long_names()
    ensures
        "U"@.len() == 1 && "W"@.len() == 1 && "R"@.len() == 1 && "M"@.len() == 1,
        "EU"@.len() == 2 && "AU"@.len() == 2 && "ER"@.len() == 2 && "AR"@.len() == 2,
        "min"@.len() == 3 && "max"@.len() == 3 && "exp"@.len() == 3 && "nor"@.len() == 3,
        "nand"@.len() == 4 && "xnor"@.len() == 4,
        "min"@ != "max"@ && "min"@ != "exp"@ && "max"@ != "exp"@,
        "nor"@ != "min"@ && "nor"@ != "max"@ && "nor"@ != "exp"@ && "nand"@ != "xnor"@,
{
    reveal_strlit("U");
    reveal_strlit("W");
    reveal_strlit("R");
    reveal_strlit("M");
    reveal_strlit("EU");
    reveal_strlit("AU");
    reveal_strlit("ER");
    reveal_strlit("AR");
    reveal_strlit("min");
    reveal_strlit("max");
    reveal_strlit("exp");
    reveal_strlit("nor");
    reveal_strlit("nand");
    reveal_strlit("xnor");
    assert("min"@[1] == 'i' && "max"@[1] == 'a' && "exp"@[1] == 'x' && "nor"@[1] == 'o');
    assert("nand"@[0] == 'n' && "xnor"@[0] == 'x');
}

proof fn unary_lengths(s: Seq<char>)
    ensures
        crate::builtins::is_unary(s) ==> s.len() == 1 || s.len() == 2 || s.len() == 9,
{
    reveal_strlit("X");
    reveal_strlit("G");
    reveal_strlit("F");
    reveal_strlit("EX");
    reveal_strlit("AX");
    reveal_strlit("EG");
    reveal_strlit("AG");
    reveal_strlit("EF");
    reveal_strlit("AF");
    reveal_strlit("accepting");
}

/// `min` and `max` give one of two numbers: one that is not above, or not below, the other.
pub proof fn extreme_law(a: SV, b: SV, env: Leaves, x: Q, y: Q)
    requires
        numeric(a) is Some,
        numeric(b) is Some,
        counts(a, env, x),
        counts(b, env, y),
    ensures
        builtin_value("min"@, seq![a, b]) matches Ok(v) && ((counts(v, env, x) && x.n * y.d <= y.n * x.d) || (counts(
            v,
            env,
            y,
        ) && y.n * x.d <= x.n * y.d)),
        builtin_value("max"@, seq![a, b]) matches Ok(v) && ((counts(v, env, x) && x.n * y.d >= y.n * x.d) || (counts(
            v,
            env,
            y,
        ) && y.n * x.d >= x.n * y.d)),
{
    long_names();
    unary_lengths("min"@);
    unary_lengths("max"@);
    let args = seq![a, b];
    assert(args.len() == 2 && args[0] == a && args[1] == b);
    let e = numeric(a)->0;
    let f = numeric(b)->0;
    assert(sem(e, env) == Some(Val::Num(x)));
    assert(sem(f, env) == Some(Val::Num(y)));
    ite_meaning(FE::Lt(Box::new(e), Box::new(f)), e, f, env);
    ite_meaning(FE::Lt(Box::new(f), Box::new(e)), e, f, env);
    reveal_with_fuel(sem, 2);
    assert(holds(sem(FE::Lt(Box::new(e), Box::new(f)), env)) == x.less(y));
    assert(holds(sem(FE::Lt(Box::new(f), Box::new(e)), env)) == y.less(x));
}

/// `nor`, `nand` and `xnor` hold by their truth tables.
pub proof fn joined_law(a: SV, b: SV, env: Leaves, p: bool, q: bool)
    requires
        condition(a) is Some,
        condition(b) is Some,
        says(a, env, p),
        says(b, env, q),
    ensures
        builtin_value("nor"@, seq![a, b]) matches Ok(v) && holds(mean(v, env)) == !(p || q),
        builtin_value("nand"@, seq![a, b]) matches Ok(v) && holds(mean(v, env)) == !(p && q),
        builtin_value("xnor"@, seq![a, b]) matches Ok(v) && holds(mean(v, env)) == (p == q),
{
    long_names();
    unary_lengths("nor"@);
    unary_lengths("nand"@);
    unary_lengths("xnor"@);
    let args = seq![a, b];
    assert(args.len() == 2 && args[0] == a && args[1] == b);
    let e = condition(a)->0;
    let f = condition(b)->0;
    let es = seq![e, f];
    let o = sems(es, env);
    assert(o.len() == 2 && o[0] == sem(e, env) && o[1] == sem(f, env));
    and_meaning(es, env);
    or_meaning(es, env);
    not_meaning(fe_and(es), env);
    not_meaning(fe_or(es), env);
    eq_meaning(e, f, env);
    assert(some_holds(o) == (p || q)) by {
        if p {
            assert(holds(o[0]));
        }
        if q {
            assert(holds(o[1]));
        }
    }
    assert(mean(lifted(connected("nor"@, e, f)), env) == sem(connected("nor"@, e, f), env));
    assert(mean(lifted(connected("nand"@, e, f)), env) == sem(connected("nand"@, e, f), env));
    assert(mean(lifted(connected("xnor"@, e, f)), env) == sem(connected("xnor"@, e, f), env));
}

proof fn listed_are(vs: Seq<SV>, x: SV, i: int, acc: Seq<FE>)
    requires
        0 <= i <= vs.len(),
        acc.len() == i,
        forall|j: int| 0 <= j < i ==> sv_eq(x, #[trigger] vs[j]) == Some(acc[j]),
    ensures
        listed(vs, x, i, acc) matches Some(es) ==> es.len() == vs.len() && (forall|j: int|
            0 <= j < vs.len() ==> sv_eq(x, #[trigger] vs[j]) == Some(es[j])),
    decreases vs.len() - i,
{
    if i < vs.len() && sv_eq(x, vs[i]) is Some {
        listed_are(vs, x, i + 1, acc.push(sv_eq(x, vs[i])->0));
    }
}

/// A value is in a listed set exactly where it is equal to one of the listed values.
pub proof fn listed_law(w: World, at: nat, vs: Seq<SV>, x: SV, span: Span, g: Calc, env: Leaves)
    requires
        mean(x, env) is Some,
        forall|i: int| 0 <= i < vs.len() ==> mean(#[trigger] vs[i], env) is Some,
    ensures
        v_apply(w, at, SV::Among(SetV::List(vs)), seq![x], span, g) matches Ok(v) ==> holds(mean(v, env)) == exists|i: int|
            0 <= i < vs.len() && mean(#[trigger] vs[i], env) == mean(x, env),
{
    reveal(v_apply);
    reveal(v_member);
    let one = seq![x];
    assert(one.len() == 1 && one[0] == x);
    listed_are(vs, x, 0, Seq::empty());
    match listed(vs, x, 0, Seq::empty()) {
        Some(es) => {
            or_meaning(es, env);
            assert(mean(lifted(fe_or(es)), env) == sem(fe_or(es), env));
            let hs = sems(es, env);
            assert forall|i: int| 0 <= i < vs.len() implies holds(#[trigger] hs[i]) == (mean(vs[i], env) == mean(x, env)) by {
                eq_tells(x, vs[i]);
                assert(sv_eq(x, vs[i]) == Some(es[i]));
                assert(crate::sval::tells(es[i], x, vs[i]));
                assert(hs[i] == sem(es[i], env));
                assert(holds(sem(es[i], env)) == (mean(x, env) == mean(vs[i], env)));
            }
            if some_holds(hs) {
                let i = choose|i: int| 0 <= i < hs.len() && holds(#[trigger] hs[i]);
                assert(mean(vs[i], env) == mean(x, env));
            }
            if exists|i: int| 0 <= i < vs.len() && mean(#[trigger] vs[i], env) == mean(x, env) {
                let i = choose|i: int| 0 <= i < vs.len() && mean(#[trigger] vs[i], env) == mean(x, env);
                assert(holds(hs[i]));
            }
        },
        None => {},
    }
}

proof fn bound_names()
    ensures
        "up_to"@.len() == 5 && "below"@.len() == 5 && "above"@.len() == 5,
        "up_to"@ != "below"@ && "up_to"@ != "above"@ && "below"@ != "above"@,
{
    reveal_strlit("up_to");
    reveal_strlit("below");
    reveal_strlit("above");
    assert("up_to"@[0] == 'u' && "below"@[0] == 'b' && "above"@[0] == 'a');
}

/// A number is in a set of the numbers up to, below or above a bound exactly where it is so ordered.
pub proof fn bound_law(w: World, at: nat, name: Seq<char>, b: SV, x: SV, span: Span, g: Calc, env: Leaves, p: Q, q: Q)
    requires
        name == "up_to"@ || name == "below"@ || name == "above"@,
        numeric(b) is Some,
        numeric(x) is Some,
        counts(b, env, p),
        counts(x, env, q),
    ensures
        builtin_value(name, seq![b]) matches Ok(s) && (v_apply(w, at, s, seq![x], span, g) matches Ok(v) && holds(
            mean(v, env),
        ) == if name == "up_to"@ {
            q.n * p.d <= p.n * q.d
        } else if name == "below"@ {
            q.n * p.d < p.n * q.d
        } else {
            q.n * p.d > p.n * q.d
        }),
{
    bound_names();
    unary_lengths(name);
    long_names();
    reveal(v_apply);
    reveal(v_member);
    reveal_with_fuel(sem, 2);
    let one = seq![x];
    let of = seq![b];
    assert(one.len() == 1 && one[0] == x && of.len() == 1 && of[0] == b);
    let e = numeric(b)->0;
    let f = numeric(x)->0;
    assert(sem(e, env) == Some(Val::Num(p)));
    assert(sem(f, env) == Some(Val::Num(q)));
}

proof fn chain_means(e: FE, tid: Tid, succ: bool, n: nat, i: nat, j: nat, env: Leaves)
    requires
        i <= j < n,
        sem(e, env) == Some(Val::Scalar(tid, j)),
    ensures
        sem(chain(e, tid, succ, n, i), env) == Some(Val::Scalar(tid, shifted(succ, j, n))),
    decreases n - i,
{
    reveal_with_fuel(sem, 2);
    if i + 1 < n {
        let c = fe_eq(e, FE::Const(Val::Scalar(tid, i)));
        eq_meaning(e, FE::Const(Val::Scalar(tid, i)), env);
        ite_meaning(c, FE::Const(Val::Scalar(tid, shifted(succ, i, n))), chain(e, tid, succ, n, i + 1), env);
        if i < j {
            chain_means(e, tid, succ, n, i + 1, j, env);
        }
    }
}

/// The next and the previous element of a ring of `n` elements are those one further and one back, round the ring.
pub proof fn ring_law(w: World, at: nat, succ: bool, x: SV, span: Span, g: Calc, env: Leaves, tid: Tid, i: nat, n: nat)
    requires
        mean(x, env) == Some(Val::Scalar(tid, i)),
        i < n,
        match x {
            SV::Ground(_) => crate::meaning::ring_at(w, tid) matches Some(size) && ((g.eval)(
                size.0,
                size.1,
                Seq::empty(),
            ) matches Ok(v) && size_of(v) == Some(n)),
            SV::Sym(_e, crate::fexpr::LT::Scalar(t, es)) => t == tid && es.len() == n,
            _ => false,
        },
    ensures
        v_ring(w, at, succ, x, span, g) matches Ok(v) ==> mean(v, env) == Some(
            Val::Scalar(
                tid,
                if succ {
                    (i + 1) % n
                } else {
                    ((i + n - 1) as nat) % n
                },
            ),
        ),
{
    reveal(v_ring);
    assert(i % n == i) by (nonlinear_arith)
        requires
            0 <= i < n,
    ;
    assert(i + 1 < n ==> (i + 1) % n == i + 1) by (nonlinear_arith)
        requires
            0 <= i < n,
    ;
    assert(i + 1 == n ==> (i + 1) % n == 0) by (nonlinear_arith)
        requires
            0 <= i < n,
    ;
    assert(i > 0 ==> ((i + n - 1) as nat) % n == i - 1) by (nonlinear_arith)
        requires
            0 <= i < n,
    ;
    assert(i == 0 ==> ((i + n - 1) as nat) % n == n - 1) by (nonlinear_arith)
        requires
            0 <= i < n,
    ;
    match x {
        SV::Sym(e, _t) => {
            chain_means(e, tid, succ, n, 0, i, env);
        },
        _ => {},
    }
}

} // verus!
