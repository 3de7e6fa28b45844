//! What the operators of expressions mean.

use crate::ast::{BinOp, UnOp};
use crate::fexpr::{
    all_hold, and_meaning, eq_meaning, fe_not, holds, not_meaning, or_meaning, product, sem, sems, some_holds,
    total, truth, Leaves, FE,
};
use crate::flat::{state_leaves, State, Sys};
use crate::formula::{tf_and, tf_not, tf_or, TF};
use crate::ltl::tf_sat;
use crate::num::{abs, gcd, ratio, Q};
use crate::operators::{
    binary_value, chosen_value, condition, formula, joined_condition, lifted, numeric, unary_value,
};
use crate::sval::{alike, eq_tells, ite_chooses, mean, sv_eq, sv_ite, SV};
use crate::symbolic::word_of;
use crate::temporal::{ctl, Trace};
use crate::value::Val;
use vstd::prelude::*;

verus! {

/// The value that a symbolic truth value has.
pub open spec fn says(v: SV, env: Leaves, b: bool) -> bool {
    mean(v, env) == Some(Val::Bool(b))
}

/// The number that a symbolic number has.
pub open spec fn counts(v: SV, env: Leaves, q: Q) -> bool {
    mean(v, env) == Some(Val::Num(q))
}

proof fn two(a: FE, b: FE, env: Leaves)
    ensures
        all_hold(sems(seq![a, b], env)) == (holds(sem(a, env)) && holds(sem(b, env))),
        some_holds(sems(seq![a, b], env)) == (holds(sem(a, env)) || holds(sem(b, env))),
{
    let o = sems(seq![a, b], env);
    assert(o.len() == 2 && o[0] == sem(a, env) && o[1] == sem(b, env));
    if holds(sem(a, env)) {
        assert(holds(o[0]));
    }
    if holds(sem(b, env)) {
        assert(holds(o[1]));
    }
}

/// A connective of two conditions holds exactly where its truth table says, for all values of the leaves.
pub proof fn connective_law(op: BinOp, a: SV, b: SV, env: Leaves, p: bool, q: bool)
    requires
        op == BinOp::And || op == BinOp::Or || op == BinOp::Implies || op == BinOp::Xor || op == BinOp::Iff,
        condition(a) is Some,
        condition(b) is Some,
        says(a, env, p),
        says(b, env, q),
    ensures
        binary_value(op, a, b) matches Ok(v) && holds(mean(v, env)) == match op {
            BinOp::And => p && q,
            BinOp::Or => p || q,
            BinOp::Implies => !p || q,
            BinOp::Xor => p != q,
            _ => p == q,
        },
{
    let e = condition(a)->0;
    let f = condition(b)->0;
    assert(sem(e, env) == truth(p));
    assert(sem(f, env) == truth(q));
    let n = fe_not(e);
    not_meaning(e, env);
    two(e, f, env);
    two(n, f, env);
    and_meaning(seq![e, f], env);
    or_meaning(seq![e, f], env);
    or_meaning(seq![n, f], env);
    eq_meaning(e, f, env);
    let r = joined_condition(op, e, f);
    assert(mean(lifted(r), env) == sem(r, env));
}

/// A comparison by size holds exactly where the fractions are so ordered, for all values of the leaves.
pub proof fn order_law(op: BinOp, a: SV, b: SV, env: Leaves, x: Q, y: Q)
    requires
        op == BinOp::Lt || op == BinOp::Le || op == BinOp::Gt || op == BinOp::Ge,
        numeric(a) is Some,
        numeric(b) is Some,
        counts(a, env, x),
        counts(b, env, y),
    ensures
        binary_value(op, a, b) matches Ok(v) && says(
            v,
            env,
            match op {
                BinOp::Lt => x.n * y.d < y.n * x.d,
                BinOp::Le => x.n * y.d <= y.n * x.d,
                BinOp::Gt => x.n * y.d > y.n * x.d,
                _ => x.n * y.d >= y.n * x.d,
            },
        ),
{
    let e = numeric(a)->0;
    let f = numeric(b)->0;
    assert(sem(e, env) == Some(Val::Num(x)));
    assert(sem(f, env) == Some(Val::Num(y)));
}

/// A comparison for equality holds exactly where both sides have the same value, and one for inequality where they
/// have not.
pub proof fn equality_law(op: BinOp, a: SV, b: SV, env: Leaves)
    requires
        op == BinOp::Eq || op == BinOp::Neq,
        mean(a, env) is Some,
        mean(b, env) is Some,
    ensures
        match binary_value(op, a, b) {
            Ok(v) => holds(mean(v, env)) == ((op == BinOp::Eq) == (mean(a, env) == mean(b, env))),
            Err(_) => !(crate::sval::scalar(a) && crate::sval::scalar(b)),
        },
{
    match sv_eq(a, b) {
        Some(e) => {
            eq_tells(a, b);
            assert(holds(sem(e, env)) == (mean(a, env) == mean(b, env)));
            assert(mean(lifted(e), env) == sem(e, env));
            assert(mean(lifted(fe_not(e)), env) == sem(fe_not(e), env));
        },
        None => {},
    }
}

proof fn gcd_divides(a: nat, b: nat)
    requires
        a > 0 || b > 0,
    ensures
        gcd(a, b) > 0,
        a % gcd(a, b) == 0,
        b % gcd(a, b) == 0,
    decreases b,
{
    if b > 0 {
        gcd_divides(b, (a % b) as nat);
        let g = gcd(b, (a % b) as nat);
        assert(gcd(a, b) == g);
        let r = a % b;
        assert(a == b * (a / b) + r) by (nonlinear_arith)
            requires
                b > 0,
                r == a % b,
        ;
        let x = b / g;
        let y = r / g;
        assert(b == g * x) by (nonlinear_arith)
            requires
                g > 0,
                b % g == 0,
                x == b / g,
        ;
        assert(r == g * y) by (nonlinear_arith)
            requires
                g > 0,
                r % g == 0,
                y == r / g,
        ;
        let c = a / b;
        assert(a == g * (x * c + y)) by (nonlinear_arith)
            requires
                a == b * c + r,
                b == g * x,
                r == g * y,
        ;
        assert(a % g == 0) by (nonlinear_arith)
            requires
                g > 0,
                a == g * (x * c + y),
        ;
    }
}

/// The fraction `n / d` has the value of `n` divided by `d`.
pub proof fn ratio_value(n: int, d: int)
    requires
        d != 0,
    ensures
        ratio(n, d).d > 0,
        ratio(n, d).n * d == n * ratio(n, d).d,
{
    let g = gcd(abs(n), abs(d)) as int;
    gcd_divides(abs(n), abs(d));
    let m = abs(n) as int;
    let e = abs(d) as int;
    let x = m / g;
    let y = e / g;
    assert(m == g * x) by (nonlinear_arith)
        requires
            g > 0,
            m % g == 0,
            x == m / g,
    ;
    assert(e == g * y) by (nonlinear_arith)
        requires
            g > 0,
            e % g == 0,
            y == e / g,
    ;
    assert(y > 0) by (nonlinear_arith)
        requires
            e == g * y,
            e > 0,
            g > 0,
    ;
    assert((g * x) / g == x && (-(g * x)) / g == -x && (g * (-x)) / g == -x) by (nonlinear_arith)
        requires
            g > 0,
    ;
    let top = if (n >= 0) == (d > 0) {
        x
    } else {
        -x
    };
    assert(-(g * x) == g * (-x)) by (nonlinear_arith);
    assert(ratio(n, d).d == y);
    assert(ratio(n, d).n == top);
    assert(x * (g * y) == (g * x) * y) by (nonlinear_arith);
    assert((-x) * (g * y) == (-(g * x)) * y) by (nonlinear_arith);
    assert((-x) * (-(g * y)) == (g * x) * y) by (nonlinear_arith);
    assert(x * (-(g * y)) == (-(g * x)) * y) by (nonlinear_arith);
}

/// Sums, differences, products and quotients have the values of those of the fractions; the whole quotient and the
/// remainder are those of the division whose remainder is not negative. Where the divisor is zero, or not all numbers
/// are whole in a whole division, there is no value.
pub proof fn arithmetic_law(op: BinOp, a: SV, b: SV, env: Leaves, x: Q, y: Q)
    requires
        op == BinOp::Plus || op == BinOp::Minus || op == BinOp::Mult || op == BinOp::Div || op == BinOp::IDiv || op
            == BinOp::Mod,
        numeric(a) is Some,
        numeric(b) is Some,
        counts(a, env, x),
        counts(b, env, y),
        x.d > 0,
        y.d > 0,
    ensures
        match binary_value(op, a, b) {
            Ok(v) => match mean(v, env) {
                Some(Val::Num(z)) => match op {
                    BinOp::Plus => z.d > 0 && z.n * (x.d * y.d) == (x.n * y.d + y.n * x.d) * z.d,
                    BinOp::Minus => z.d > 0 && z.n * (x.d * y.d) == (x.n * y.d - y.n * x.d) * z.d,
                    BinOp::Mult => z.d > 0 && z.n * (x.d * y.d) == (x.n * y.n) * z.d,
                    BinOp::Div => y.n != 0 && z.d > 0 && z.n * (x.d * y.n) == (x.n * y.d) * z.d,
                    _ => {
                        &&& y.n != 0 && x.d == 1 && y.d == 1 && z.d == 1
                        &&& exists|q: int, r: int| #[trigger]
                            divides(x.n, y.n, q, r) && z.n == if op == BinOp::IDiv {
                                q
                            } else {
                                r
                            }
                    },
                },
                _ => undivided(op, x, y),
            },
            Err(_) => undivided(op, x, y),
        },
{
    let xy = x.d * y.d;
    assert(xy > 0) by (nonlinear_arith)
        requires
            xy == x.d * y.d,
            x.d > 0,
            y.d > 0,
    ;
    ratio_value(x.n * y.d + y.n * x.d, xy);
    ratio_value(x.n * y.d - y.n * x.d, xy);
    ratio_value(x.n * y.n, xy);
    if y.n != 0 {
        let xd = x.d * y.n;
        assert(xd != 0) by (nonlinear_arith)
            requires
                xd == x.d * y.n,
                x.d > 0,
                y.n != 0,
        ;
        ratio_value(x.n * y.d, xd);
        let q = x.n / y.n;
        let r = x.n % y.n;
        let m = y.n;
        let n = x.n;
        assert(n == m * q + r && 0 <= r && (m > 0 ==> r < m) && (m < 0 ==> r < -m)) by (nonlinear_arith)
            requires
                m != 0,
                q == n / m,
                r == n % m,
        ;
        assert(divides(x.n, y.n, q, r));
    }
    if !(a is Ground && b is Ground) {
        let e = numeric(a)->0;
        let f = numeric(b)->0;
        assert(sem(e, env) == Some(Val::Num(x)));
        assert(sem(f, env) == Some(Val::Num(y)));
        pair_value(e, f, env, x, y);
        let n = FE::Neg(Box::new(f));
        assert(sem(n, env) == Some(Val::Num(y.neg())));
        pair_value(e, n, env, x, y.neg());
        assert((-y.n) * x.d == -(y.n * x.d)) by (nonlinear_arith);
    }
}

/// `n` is `q` times `m` and `r`, which is not negative and smaller than `m`.
pub open spec fn divides(n: int, m: int, q: int, r: int) -> bool {
    n == m * q + r && 0 <= r && (m > 0 ==> r < m) && (m < 0 ==> r < -m)
}

/// The division has no result.
pub open spec fn undivided(op: BinOp, x: Q, y: Q) -> bool {
    match op {
        BinOp::Div => y.n == 0,
        BinOp::IDiv => y.n == 0 || x.d != 1 || y.d != 1,
        BinOp::Mod => y.n == 0 || x.d != 1 || y.d != 1,
        _ => false,
    }
}

/// One and the other fraction are the same as those from the neutral element on.
proof fn pair_value(a: FE, b: FE, env: Leaves, x: Q, y: Q)
    requires
        sem(a, env) == Some(Val::Num(x)),
        sem(b, env) == Some(Val::Num(y)),
        x.d > 0,
        y.d > 0,
    ensures
        total(sems(seq![a, b], env)) matches Some(z) && z.d > 0 && z.n * (x.d * y.d) == (x.n * y.d + y.n * x.d) * z.d,
        product(sems(seq![a, b], env)) matches Some(z) && z.d > 0 && z.n * (x.d * y.d) == (x.n * y.n) * z.d,
{
    let o = sems(seq![a, b], env);
    assert(o =~= seq![Some(Val::Num(x)), Some(Val::Num(y))]);
    let o1 = o.drop_last();
    assert(o1 =~= seq![Some(Val::Num(x))]);
    assert(o1.drop_last() =~= Seq::<Option<Val>>::empty());
    reveal_with_fuel(total, 3);
    reveal_with_fuel(product, 3);
    let zero = Q::whole(0);
    let one = Q::whole(1);
    let s = zero.plus(x);
    let p = one.times(x);
    ratio_value(0 * x.d + x.n * 1, 1 * x.d);
    ratio_value(1 * x.n, 1 * x.d);
    assert(s.d > 0 && s.n * x.d == x.n * s.d);
    assert(p.d > 0 && p.n * x.d == x.n * p.d);
    let sy = s.d * y.d;
    let py = p.d * y.d;
    assert(sy > 0 && py > 0) by (nonlinear_arith)
        requires
            sy == s.d * y.d,
            py == p.d * y.d,
            s.d > 0,
            p.d > 0,
            y.d > 0,
    ;
    ratio_value(s.n * y.d + y.n * s.d, sy);
    ratio_value(p.n * y.n, py);
    let z = s.plus(y);
    let t = p.times(y);
    scaled_sum(s, x, y, z);
    scaled_product(p, x, y, t);
}

proof fn scaled_sum(s: Q, x: Q, y: Q, z: Q)
    requires
        s.d > 0,
        x.d > 0,
        y.d > 0,
        s.n * x.d == x.n * s.d,
        z.n * (s.d * y.d) == (s.n * y.d + y.n * s.d) * z.d,
    ensures
        z.n * (x.d * y.d) == (x.n * y.d + y.n * x.d) * z.d,
{
    let l = z.n * (x.d * y.d);
    let r = (x.n * y.d + y.n * x.d) * z.d;
    let left = z.n * (s.d * y.d);
    let right = (s.n * y.d + y.n * s.d) * z.d;
    let u = s.n * x.d;
    let w = x.n * s.d;
    assert(l * s.d == left * x.d) by (nonlinear_arith)
        requires
            l == z.n * (x.d * y.d),
            left == z.n * (s.d * y.d),
    ;
    let c = s.n * y.d + y.n * s.d;
    let b = u * y.d + (y.n * x.d) * s.d;
    assert(c * x.d == b) by (nonlinear_arith)
        requires
            c == s.n * y.d + y.n * s.d,
            b == u * y.d + (y.n * x.d) * s.d,
            u == s.n * x.d,
    ;
    assert((c * z.d) * x.d == (c * x.d) * z.d) by (nonlinear_arith);
    assert(r * s.d == (w * y.d + (y.n * x.d) * s.d) * z.d) by (nonlinear_arith)
        requires
            r == (x.n * y.d + y.n * x.d) * z.d,
            w == x.n * s.d,
    ;
    assert(l == r) by (nonlinear_arith)
        requires
            l * s.d == r * s.d,
            s.d > 0,
    ;
}

proof fn scaled_product(s: Q, x: Q, y: Q, z: Q)
    requires
        s.d > 0,
        x.d > 0,
        y.d > 0,
        s.n * x.d == x.n * s.d,
        z.n * (s.d * y.d) == (s.n * y.n) * z.d,
    ensures
        z.n * (x.d * y.d) == (x.n * y.n) * z.d,
{
    let l = z.n * (x.d * y.d);
    let r = (x.n * y.n) * z.d;
    let left = z.n * (s.d * y.d);
    let right = (s.n * y.n) * z.d;
    let u = s.n * x.d;
    let w = x.n * s.d;
    assert(l * s.d == left * x.d) by (nonlinear_arith)
        requires
            l == z.n * (x.d * y.d),
            left == z.n * (s.d * y.d),
    ;
    assert(right * x.d == (u * y.n) * z.d) by (nonlinear_arith)
        requires
            right == (s.n * y.n) * z.d,
            u == s.n * x.d,
    ;
    assert(r * s.d == (w * y.n) * z.d) by (nonlinear_arith)
        requires
            r == (x.n * y.n) * z.d,
            w == x.n * s.d,
    ;
    assert(l == r) by (nonlinear_arith)
        requires
            l * s.d == r * s.d,
            s.d > 0,
    ;
}

/// A negation has the other truth value, and the negative of a number its value with the other sign.
pub proof fn unary_law(op: UnOp, a: SV, env: Leaves)
    ensures
        op == UnOp::Not && condition(a) is Some ==> forall|p: bool| #[trigger]
            says(a, env, p) ==> (unary_value(op, a) matches Ok(v) && holds(mean(v, env)) == !p),
        op == UnOp::Minus && numeric(a) is Some ==> forall|x: Q| #[trigger]
            counts(a, env, x) ==> (unary_value(op, a) matches Ok(v) && counts(v, env, Q { n: -x.n, d: x.d })),
{
    if op == UnOp::Not && condition(a) is Some {
        let e = condition(a)->0;
        let r = fe_not(e);
        not_meaning(e, env);
        assert(mean(lifted(r), env) == sem(r, env));
        assert forall|p: bool| #[trigger] says(a, env, p) implies holds(sem(e, env)) == p by {}
    }
    if op == UnOp::Minus && numeric(a) is Some {
        let e = numeric(a)->0;
        assert(sem(e, env) == mean(a, env));
    }
}

/// One of two values by a condition is the first where the condition holds and the second elsewhere.
pub proof fn choice_law(c: SV, t: SV, e: SV, env: Leaves, p: bool)
    requires
        condition(c) is Some,
        says(c, env, p),
        !(t is Formula),
        !(e is Formula),
        alike(t, e),
    ensures
        chosen_value(c, t, e) matches Ok(v) ==> mean(v, env) == mean(
            if p {
                t
            } else {
                e
            },
            env,
        ),
{
    let f = condition(c)->0;
    assert(holds(sem(f, env)) == p);
    if sv_ite(f, t, e) is Some {
        ite_chooses(f, t, e);
        assert(crate::sval::chosen(sv_ite(f, t, e)->0, f, t, e));
    }
}

proof fn linear_parts(f: TF, g: TF, tr: Trace, i: nat)
    ensures
        tf_sat(tf_not(f), word_of(tr))(i) == !tf_sat(f, word_of(tr))(i),
        tf_sat(tf_and(f, g), word_of(tr))(i) == (tf_sat(f, word_of(tr))(i) && tf_sat(g, word_of(tr))(i)),
        tf_sat(tf_or(f, g), word_of(tr))(i) == (tf_sat(f, word_of(tr))(i) || tf_sat(g, word_of(tr))(i)),
{
    reveal_with_fuel(tf_sat, 3);
    match (f, g) {
        (TF::Atom(x), TF::Atom(y)) => {
            let env = state_leaves(tr(i));
            two(x, y, env);
            and_meaning(seq![x, y], env);
            or_meaning(seq![x, y], env);
        },
        _ => {},
    }
}

/// A connective of two linear-time formulas holds at a time by its truth table.
pub proof fn linear_connective_law(op: BinOp, a: SV, b: SV, tr: Trace, i: nat)
    requires
        op == BinOp::And || op == BinOp::Or || op == BinOp::Implies || op == BinOp::Xor || op == BinOp::Iff,
        a is Formula || b is Formula,
        formula(a) is Some,
        formula(b) is Some,
    ensures
        ({
            let p = tf_sat(formula(a)->0, word_of(tr))(i);
            let q = tf_sat(formula(b)->0, word_of(tr))(i);
            binary_value(op, a, b) matches Ok(v) && (v matches SV::Formula(h) && tf_sat(h, word_of(tr))(i) == match op {
                BinOp::And => p && q,
                BinOp::Or => p || q,
                BinOp::Implies => !p || q,
                BinOp::Xor => p != q,
                _ => p == q,
            })
        }),
{
    let f = formula(a)->0;
    let g = formula(b)->0;
    linear_parts(f, g, tr, i);
    linear_parts(g, f, tr, i);
    linear_parts(tf_not(f), g, tr, i);
    linear_parts(f, tf_not(g), tr, i);
    linear_parts(tf_not(f), tf_not(g), tr, i);
    linear_parts(tf_and(f, tf_not(g)), tf_and(tf_not(f), g), tr, i);
    linear_parts(tf_and(f, g), tf_and(tf_not(f), tf_not(g)), tr, i);
}

proof fn branching_parts(sys: Sys, f: TF, g: TF, s: State)
    ensures
        ctl(sys, tf_not(f))(s) == !ctl(sys, f)(s),
        ctl(sys, tf_and(f, g))(s) == (ctl(sys, f)(s) && ctl(sys, g)(s)),
        ctl(sys, tf_or(f, g))(s) == (ctl(sys, f)(s) || ctl(sys, g)(s)),
{
    reveal_with_fuel(ctl, 3);
    match (f, g) {
        (TF::Atom(x), TF::Atom(y)) => {
            let env = state_leaves(s);
            two(x, y, env);
            and_meaning(seq![x, y], env);
            or_meaning(seq![x, y], env);
        },
        _ => {},
    }
}

/// A connective of two branching-time formulas holds in a state by its truth table.
pub proof fn branching_connective_law(op: BinOp, a: SV, b: SV, sys: Sys, s: State)
    requires
        op == BinOp::And || op == BinOp::Or || op == BinOp::Implies || op == BinOp::Xor || op == BinOp::Iff,
        a is Formula || b is Formula,
        formula(a) is Some,
        formula(b) is Some,
    ensures
        ({
            let p = ctl(sys, formula(a)->0)(s);
            let q = ctl(sys, formula(b)->0)(s);
            binary_value(op, a, b) matches Ok(v) && (v matches SV::Formula(h) && ctl(sys, h)(s) == match op {
                BinOp::And => p && q,
                BinOp::Or => p || q,
                BinOp::Implies => !p || q,
                BinOp::Xor => p != q,
                _ => p == q,
            })
        }),
{
    let f = formula(a)->0;
    let g = formula(b)->0;
    branching_parts(sys, f, g, s);
    branching_parts(sys, g, f, s);
    branching_parts(sys, tf_not(f), g, s);
    branching_parts(sys, f, tf_not(g), s);
    branching_parts(sys, tf_not(f), tf_not(g), s);
    branching_parts(sys, tf_and(f, tf_not(g)), tf_and(tf_not(f), g), s);
    branching_parts(sys, tf_and(f, g), tf_and(tf_not(f), tf_not(g)), s);
}

} // verus!
