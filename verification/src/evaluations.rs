//! What the value of an expression says of the values of its parts.

use crate::answers::numeral_law;
use crate::ast::{AccessV, ExprKindV, ExprV, LetDeclV, Quantifier, VarDeclV};
use crate::builtins::unpacked;
use crate::calc::{all_names, conditions, ident_names, listed, with_args, with_row};
use crate::connectives::{choice_law, ratio_value, says};
use crate::ctype::{all_rows_have, position, rows, start, values};
use crate::fexpr::{all_hold, and_meaning, fe_and, fe_or, holds, or_meaning, sem, sems, some_holds, Leaves, FE};
use crate::judgement::{World, CEV, CR};
use crate::meaning::{
    evaluation, evaluation_rules, v_apply, v_assignments, v_binary, v_conditional, v_domains, v_eval_binder,
    v_eval_inner, v_eval_part, v_eval_rest, v_eval_use, v_exprs, v_instances, v_lets, v_quantified, v_unary,
    v_update_all, v_update_at, v_update_field, v_update_part, v_update_step,
};
use crate::num::{dec, Q};
use crate::operators::{binary_value, condition, lifted, unary_value};
use crate::sval::{alike, eq_tells, mean, means, sv_eq, ClosureV, SetV, SV};
use crate::value::Val;
use vstd::prelude::*;

verus! {

/// The variables in scope, with their values.
pub type Scope = Seq<(Seq<char>, SV)>;

/// The value of an expression, nested no deeper than `k`.
pub open spec fn value_of(w: World, k: nat, at: nat, x: ExprV, lo: Scope) -> CR<SV> {
    (evaluation(w, k).eval)(at, x, lo)
}

/// Each expression has its value.
pub open spec fn values_of(w: World, k: nat, at: nat, xs: Seq<ExprV>, lo: Scope, vs: Seq<SV>) -> bool {
    &&& vs.len() == xs.len()
    &&& forall|i: int| 0 <= i < xs.len() ==> value_of(w, k, at, #[trigger] xs[i], lo) == Ok::<SV, CEV>(vs[i])
}

/// An operation has the value of its operator at the values of its operands, the left one first.
pub proof fn operation_law(w: World, k: nat, at: nat, x: ExprV, lo: Scope)
    ensures
        x.kind matches ExprKindV::Binary(op, a, b) ==> match (
            value_of(w, k, at, *a, lo),
            value_of(w, k, at, *b, lo),
        ) {
            (Ok(va), Ok(vb)) => match (binary_value(op, va, vb), value_of(w, k + 1, at, x, lo)) {
                (Ok(v), Ok(u)) => u == v,
                (Err(_), Err(_)) => true,
                _ => false,
            },
            _ => value_of(w, k + 1, at, x, lo) is Err,
        },
        x.kind matches ExprKindV::Unary(op, a) ==> match value_of(w, k, at, *a, lo) {
            Ok(va) => match (unary_value(op, va), value_of(w, k + 1, at, x, lo)) {
                (Ok(v), Ok(u)) => u == v,
                (Err(_), Err(_)) => true,
                _ => false,
            },
            _ => value_of(w, k + 1, at, x, lo) is Err,
        },
{
    evaluation_rules(w, (k + 1) as nat);
    reveal(v_eval_inner);
    reveal(v_eval_use);
    reveal(v_binary);
    reveal(v_unary);
}

/// A conditional has the value of the branch that its condition chooses.
pub proof fn conditional_law(w: World, k: nat, at: nat, x: ExprV, lo: Scope, env: Leaves, p: bool)
    requires
        x.kind is Conditional,
        value_of(w, k + 1, at, x, lo) is Ok,
        value_of(w, k, at, *x.kind->cond, lo) matches Ok(c) && says(c, env, p),
        match (value_of(w, k, at, *x.kind->then_, lo), value_of(w, k, at, *x.kind->els, lo)) {
            (Ok(t), Ok(e)) => !(t is Formula) && !(e is Formula) && alike(t, e),
            _ => true,
        },
    ensures
        value_of(
            w,
            k,
            at,
            if p {
                *x.kind->then_
            } else {
                *x.kind->els
            },
            lo,
        ) matches Ok(r) && mean(value_of(w, k + 1, at, x, lo)->Ok_0, env) == mean(r, env),
{
    evaluation_rules(w, (k + 1) as nat);
    reveal(v_eval_inner);
    reveal(v_eval_use);
    reveal(v_eval_part);
    reveal(v_eval_binder);
    reveal(v_eval_rest);
    reveal(v_conditional);
    let c = value_of(w, k, at, *x.kind->cond, lo)->Ok_0;
    match (value_of(w, k, at, *x.kind->then_, lo), value_of(w, k, at, *x.kind->els, lo)) {
        (Ok(t), Ok(e)) => {
            if condition(c) is Some {
                choice_law(c, t, e, env, p);
            }
        },
        _ => {},
    }
}

/// The names that declarations declare, from declaration `i` on, in order.
pub open spec fn declared(ds: Seq<VarDeclV>, i: int) -> Seq<Seq<char>>
    decreases ds.len() - i,
{
    if i < 0 || i >= ds.len() {
        Seq::empty()
    } else {
        Seq::new(ds[i].names.len(), |j: int| ds[i].names[j].name) + declared(ds, i + 1)
    }
}

/// The declared names are gathered in order.
pub proof fn names_declared(ds: Seq<VarDeclV>, i: int, acc: Seq<Seq<char>>)
    ensures
        all_names(ds, i, acc) == acc + declared(ds, i),
    decreases ds.len() - i,
{
    if i < 0 || i >= ds.len() {
        assert(acc + declared(ds, i) =~= acc);
    } else {
        names_declared(ds, i + 1, acc + ident_names(ds[i].names));
        assert(acc + ident_names(ds[i].names) + declared(ds, i + 1) =~= acc + declared(ds, i));
    }
}

proof fn exprs_valued(w: World, k: nat, at: nat, xs: Seq<ExprV>, lo: Scope, acc: Seq<SV>, i: int)
    requires
        0 <= i <= xs.len(),
        acc.len() == i,
        forall|j: int| 0 <= j < i ==> value_of(w, k, at, #[trigger] xs[j], lo) == Ok::<SV, CEV>(acc[j]),
    ensures
        match v_exprs(w, at, xs, lo, acc, evaluation(w, k), i) {
            Ok(vs) => values_of(w, k, at, xs, lo, vs),
            Err(_) => exists|j: int| i <= j < xs.len() && value_of(w, k, at, #[trigger] xs[j], lo) is Err,
        },
    decreases xs.len() - i,
{
    reveal_with_fuel(v_exprs, 2);
    if i < xs.len() {
        match value_of(w, k, at, xs[i], lo) {
            Ok(t) => {
                exprs_valued(w, k, at, xs, lo, acc.push(t), i + 1);
            },
            Err(_) => {},
        }
    }
}

/// The variables of a scope, and behind them names with values.
pub open spec fn scope_with(lo: Scope, names: Seq<Seq<char>>, vs: Seq<SV>) -> Scope {
    lo + Seq::new(names.len(), |i: int| (names[i], vs[i]))
}

/// A function literal applied to as many arguments as it has variables has the value of its body, where the variables,
/// in order, have the values of the arguments.
pub proof fn application_law(w: World, k: nat, at: nat, x: ExprV, lo: Scope, vs: Seq<SV>)
    requires
        x.kind matches ExprKindV::App(f, args) && (f.kind matches ExprKindV::Lambda(ds, b) && declared(ds, 0).len()
            == args.len() && values_of(w, k + 1, at, args, lo, vs)),
    ensures
        value_of(w, k + 2, at, x, lo) == value_of(
            w,
            k + 1,
            at,
            *x.kind->App_0.kind->Lambda_1,
            scope_with(lo, declared(x.kind->App_0.kind->Lambda_0, 0), vs),
        ),
{
    let f = *x.kind->App_0;
    let args = x.kind->App_1;
    let ds = f.kind->Lambda_0;
    let b = *f.kind->Lambda_1;
    evaluation_rules(w, (k + 1) as nat);
    evaluation_rules(w, (k + 2) as nat);
    reveal(v_eval_inner);
    reveal(v_eval_use);
    reveal(v_eval_part);
    reveal(v_eval_binder);
    reveal(v_apply);
    let none = Seq::<Seq<char>>::empty();
    names_declared(ds, 0, none);
    assert(none + declared(ds, 0) =~= declared(ds, 0));
    assert(value_of(w, k + 1, at, f, lo) == Ok::<SV, CEV>(SV::Fun(ClosureV::Lambda(declared(ds, 0), b, at, lo))));
    exprs_valued(w, k + 1, at, args, lo, Seq::empty(), 0);
    let us = v_exprs(w, at, args, lo, Seq::empty(), evaluation(w, k + 1), 0)->Ok_0;
    assert(us =~= vs) by {
        assert forall|i: int| 0 <= i < args.len() implies us[i] == vs[i] by {
            assert(value_of(w, k + 1, at, args[i], lo) == Ok::<SV, CEV>(vs[i]));
        }
    }
    assert(with_args(lo, declared(ds, 0), vs) =~= scope_with(lo, declared(ds, 0), vs));
    if !(args.len() == 1 && declared(ds, 0).len() > 1) {
        assert(unpacked(vs, declared(ds, 0).len()) == Some(vs));
    }
}

/// The values of local declarations, none of which sees another.
pub open spec fn lets_of(w: World, k: nat, at: nat, ds: Seq<LetDeclV>, lo: Scope, vs: Seq<SV>) -> bool {
    &&& vs.len() == ds.len()
    &&& forall|i: int|
        0 <= i < ds.len() ==> value_of(w, k, at, (#[trigger] ds[i]).value, lo) == Ok::<SV, CEV>(vs[i])
}

proof fn lets_valued(w: World, k: nat, at: nat, ds: Seq<LetDeclV>, lo: Scope, vs: Seq<SV>, acc: Scope, i: int)
    requires
        0 <= i <= ds.len(),
        lets_of(w, k, at, ds, lo, vs),
        acc == lo + Seq::new(i as nat, |j: int| (ds[j].name.name, vs[j])),
    ensures
        v_lets(w, at, ds, lo, acc, evaluation(w, k), i) == Ok::<Scope, CEV>(
            lo + Seq::new(ds.len(), |j: int| (ds[j].name.name, vs[j])),
        ),
    decreases ds.len() - i,
{
    reveal_with_fuel(v_lets, 2);
    if i < ds.len() {
        assert(value_of(w, k, at, ds[i].value, lo) == Ok::<SV, CEV>(vs[i]));
        let next = acc.push((ds[i].name.name, vs[i]));
        assert(next =~= lo + Seq::new((i + 1) as nat, |j: int| (ds[j].name.name, vs[j])));
        lets_valued(w, k, at, ds, lo, vs, next, i + 1);
    }
}

/// An expression with local declarations has the value of its body, where the declared names have the values that
/// their expressions have outside.
pub proof fn let_law(w: World, k: nat, at: nat, x: ExprV, lo: Scope, vs: Seq<SV>)
    requires
        x.kind matches ExprKindV::Let(ds, b) && lets_of(w, k, at, ds, lo, vs),
    ensures
        value_of(w, k + 1, at, x, lo) == value_of(
            w,
            k,
            at,
            *x.kind->Let_1,
            lo + Seq::new(x.kind->Let_0.len(), |j: int| (x.kind->Let_0[j].name.name, vs[j])),
        ),
{
    evaluation_rules(w, (k + 1) as nat);
    reveal(v_eval_inner);
    reveal(v_eval_use);
    reveal(v_eval_part);
    reveal(v_eval_binder);
    let ds = x.kind->Let_0;
    assert(lo =~= lo + Seq::new(0, |j: int| (ds[j].name.name, vs[j])));
    lets_valued(w, k, at, ds, lo, vs, lo, 0);
}

/// The row has a value of its type for each declared name, from declaration `i` on.
pub open spec fn is_row(w: World, k: nat, at: nat, ds: Seq<VarDeclV>, lo: Scope, i: int, r: Seq<Val>) -> bool
    decreases ds.len() - i,
{
    if i < 0 || i >= ds.len() {
        r.len() == 0
    } else {
        let n = ds[i].names.len();
        &&& r.len() >= n
        &&& (evaluation(w, k).ctype)(at, ds[i].ty, lo, Seq::empty()) matches Ok(t) && (values(t) matches Some(vs)
            && forall|j: int| 0 <= j < n ==> vs.contains(#[trigger] r[j]))
        &&& is_row(w, k, at, ds, lo, i + 1, r.skip(n as int))
    }
}

/// Each column has a value of the row.
pub open spec fn in_columns(cols: Seq<Seq<Val>>, r: Seq<Val>) -> bool {
    r.len() == cols.len() && forall|j: int| 0 <= j < cols.len() ==> (#[trigger] cols[j]).contains(r[j])
}

proof fn domains_fit(
    w: World,
    k: nat,
    at: nat,
    ds: Seq<VarDeclV>,
    span: crate::span::Span,
    lo: Scope,
    acc: Seq<Seq<Val>>,
    i: int,
    r: Seq<Val>,
)
    requires
        0 <= i <= ds.len(),
        v_domains(w, at, ds, span, lo, acc, evaluation(w, k), i) is Ok,
    ensures
        in_columns(v_domains(w, at, ds, span, lo, acc, evaluation(w, k), i)->Ok_0, r) == (r.len() >= acc.len()
            && in_columns(acc, r.take(acc.len() as int)) && is_row(w, k, at, ds, lo, i, r.skip(acc.len() as int))),
    decreases ds.len() - i,
{
    reveal_with_fuel(v_domains, 2);
    let m = acc.len() as int;
    if i < ds.len() {
        let t = (evaluation(w, k).ctype)(at, ds[i].ty, lo, Seq::empty())->Ok_0;
        let vs = values(t)->0;
        let n = ds[i].names.len();
        let more = crate::calc::columns_of(n, vs);
        let next = acc + more;
        domains_fit(w, k, at, ds, span, lo, next, i + 1, r);
        if r.len() >= m + n {
            let s = r.skip(m);
            assert(r.skip(next.len() as int) =~= s.skip(n as int));
            let p = r.take(next.len() as int);
            if in_columns(next, p) {
                assert forall|j: int| 0 <= j < m implies (#[trigger] acc[j]).contains(r.take(m)[j]) by {
                    assert(next[j] == acc[j] && next[j].contains(p[j]));
                }
                assert forall|j: int| 0 <= j < n implies vs.contains(#[trigger] s[j]) by {
                    assert(next[m + j] == more[j] && next[m + j].contains(p[m + j]));
                }
            }
            if in_columns(acc, r.take(m)) && (forall|j: int| 0 <= j < n ==> vs.contains(#[trigger] s[j])) {
                assert forall|j: int| 0 <= j < next.len() implies (#[trigger] next[j]).contains(p[j]) by {
                    if j < m {
                        assert(acc[j].contains(r.take(m)[j]));
                    } else {
                        assert(next[j] == more[j - m]);
                        assert(vs.contains(s[j - m]));
                    }
                }
            }
        }
    } else {
        if r.len() == m {
            assert(r.take(m) =~= r);
        }
    }
}

/// An instance of a quantified expression.
pub open spec fn instance(w: World, k: nat, at: nat, ds: Seq<VarDeclV>, b: ExprV, lo: Scope, r: Seq<Val>) -> CR<SV> {
    value_of(w, k, at, b, scope_with(lo, declared(ds, 0), Seq::new(r.len(), |i: int| SV::Ground(r[i]))))
}

proof fn instances_valued(
    w: World,
    k: nat,
    at: nat,
    rs: Seq<Seq<Val>>,
    names: Seq<Seq<char>>,
    b: ExprV,
    lo: Scope,
    acc: Seq<SV>,
    i: int,
)
    requires
        0 <= i <= rs.len(),
        acc.len() == i,
        forall|j: int|
            0 <= j < i ==> value_of(w, k, at, b, with_row(lo, names, #[trigger] rs[j])) == Ok::<SV, CEV>(acc[j]),
    ensures
        v_instances(w, at, rs, names, b, lo, acc, evaluation(w, k), i) matches Ok(vs) ==> vs.len() == rs.len() && (
        forall|j: int|
            0 <= j < rs.len() ==> value_of(w, k, at, b, with_row(lo, names, #[trigger] rs[j])) == Ok::<SV, CEV>(vs[j])),
    decreases rs.len() - i,
{
    reveal_with_fuel(v_instances, 2);
    if i < rs.len() {
        match value_of(w, k, at, b, with_row(lo, names, rs[i])) {
            Ok(t) => {
                instances_valued(w, k, at, rs, names, b, lo, acc.push(t), i + 1);
            },
            Err(_) => {},
        }
    }
}

proof fn conditions_are(vs: Seq<SV>, i: int, acc: Seq<FE>)
    requires
        0 <= i <= vs.len(),
        acc.len() == i,
        forall|j: int| 0 <= j < i ==> condition(#[trigger] vs[j]) == Some(acc[j]),
    ensures
        conditions(vs, i, acc) matches Some(es) ==> es.len() == vs.len() && (forall|j: int|
            0 <= j < vs.len() ==> condition(#[trigger] vs[j]) == Some(es[j])),
    decreases vs.len() - i,
{
    if i < vs.len() && condition(vs[i]) is Some {
        conditions_are(vs, i + 1, acc.push(condition(vs[i])->0));
    }
}

/// The instance for a row holds.
pub open spec fn instance_holds(
    w: World,
    k: nat,
    at: nat,
    ds: Seq<VarDeclV>,
    b: ExprV,
    lo: Scope,
    r: Seq<Val>,
    env: Leaves,
) -> bool {
    instance(w, k, at, ds, b, lo, r) matches Ok(v) && holds(mean(v, env))
}

/// A quantified condition holds where it holds for all values of the variables, or for some.
pub proof fn quantifier_law(w: World, k: nat, at: nat, x: ExprV, lo: Scope, env: Leaves)
    requires
        x.kind is Quantified,
        value_of(w, k + 1, at, x, lo) matches Ok(v) && !(v is Formula),
    ensures
        ({
            let ds = x.kind->Quantified_1;
            let b = *x.kind->Quantified_2;
            holds(mean(value_of(w, k + 1, at, x, lo)->Ok_0, env)) == if x.kind->Quantified_0 == Quantifier::Forall {
                forall|r: Seq<Val>| #[trigger]
                    is_row(w, k, at, ds, lo, 0, r) ==> instance_holds(w, k, at, ds, b, lo, r, env)
            } else {
                exists|r: Seq<Val>| #[trigger]
                    is_row(w, k, at, ds, lo, 0, r) && instance_holds(w, k, at, ds, b, lo, r, env)
            }
        }),
{
    evaluation_rules(w, (k + 1) as nat);
    reveal(v_eval_inner);
    reveal(v_eval_use);
    reveal(v_eval_part);
    reveal(v_eval_binder);
    reveal(v_quantified);
    reveal(v_assignments);
    let q = x.kind->Quantified_0;
    let ds = x.kind->Quantified_1;
    let b = *x.kind->Quantified_2;
    let g = evaluation(w, k);
    let none = Seq::<Seq<char>>::empty();
    let names = all_names(ds, 0, none);
    names_declared(ds, 0, none);
    assert(names =~= declared(ds, 0));
    let nocol = Seq::<Seq<Val>>::empty();
    let cols = v_domains(w, at, ds, x.span, lo, nocol, g, 0)->Ok_0;
    let rs = rows(cols, 0, start());
    let vs = v_instances(w, at, rs, names, b, lo, Seq::empty(), g, 0)->Ok_0;
    instances_valued(w, k, at, rs, names, b, lo, Seq::empty(), 0);
    conditions_are(vs, 0, Seq::empty());
    let es = conditions(vs, 0, Seq::empty())->0;
    and_meaning(es, env);
    or_meaning(es, env);
    assert(mean(lifted(fe_and(es)), env) == sem(fe_and(es), env));
    assert(mean(lifted(fe_or(es)), env) == sem(fe_or(es), env));
    let hs = sems(es, env);
    assert forall|j: int| 0 <= j < rs.len() implies #[trigger] is_row(w, k, at, ds, lo, 0, rs[j]) && hs[j] == sem(
        es[j],
        env,
    ) && instance_holds(w, k, at, ds, b, lo, rs[j], env) == holds(hs[j]) by {
        row_instance(w, k, at, ds, x.span, lo, rs[j], names);
        all_rows_have(cols, rs[j]);
        assert(rs.contains(rs[j]));
        assert(value_of(w, k, at, b, with_row(lo, names, rs[j])) == Ok::<SV, CEV>(vs[j]));
        assert(condition(vs[j]) == Some(es[j]));
    }
    if q == Quantifier::Forall {
        if all_hold(hs) {
            assert forall|r: Seq<Val>| #[trigger] is_row(w, k, at, ds, lo, 0, r) implies instance_holds(
                w,
                k,
                at,
                ds,
                b,
                lo,
                r,
                env,
            ) by {
                row_instance(w, k, at, ds, x.span, lo, r, names);
                all_rows_have(cols, r);
                let j = choose|j: int| 0 <= j < rs.len() && rs[j] == r;
                assert(is_row(w, k, at, ds, lo, 0, rs[j]));
                assert(holds(hs[j]));
            }
        } else {
            let j = choose|j: int| 0 <= j < hs.len() && !holds(#[trigger] hs[j]);
            assert(is_row(w, k, at, ds, lo, 0, rs[j]));
        }
    } else {
        if some_holds(hs) {
            let j = choose|j: int| 0 <= j < hs.len() && holds(#[trigger] hs[j]);
            assert(is_row(w, k, at, ds, lo, 0, rs[j]));
        }
        if exists|r: Seq<Val>| #[trigger] is_row(w, k, at, ds, lo, 0, r) && instance_holds(w, k, at, ds, b, lo, r, env) {
            let r = choose|r: Seq<Val>| #[trigger]
                is_row(w, k, at, ds, lo, 0, r) && instance_holds(w, k, at, ds, b, lo, r, env);
            row_instance(w, k, at, ds, x.span, lo, r, names);
            all_rows_have(cols, r);
            let j = choose|j: int| 0 <= j < rs.len() && rs[j] == r;
            assert(is_row(w, k, at, ds, lo, 0, rs[j]));
            assert(holds(hs[j]));
        }
    }
}

/// The rows that columns hold are those with a value of its type for each name.
pub proof fn row_instance(
    w: World,
    k: nat,
    at: nat,
    ds: Seq<VarDeclV>,
    span: crate::span::Span,
    lo: Scope,
    r: Seq<Val>,
    names: Seq<Seq<char>>,
)
    requires
        v_domains(w, at, ds, span, lo, Seq::empty(), evaluation(w, k), 0) is Ok,
        names == declared(ds, 0),
    ensures
        is_row(w, k, at, ds, lo, 0, r) == in_columns(
            v_domains(w, at, ds, span, lo, Seq::empty(), evaluation(w, k), 0)->Ok_0,
            r,
        ),
        is_row(w, k, at, ds, lo, 0, r) ==> with_row(lo, names, r) == scope_with(
            lo,
            declared(ds, 0),
            Seq::new(r.len(), |i: int| SV::Ground(r[i])),
        ),
{
    let none = Seq::<Seq<Val>>::empty();
    domains_fit(w, k, at, ds, span, lo, none, 0, r);
    assert(r.skip(0) =~= r);
    assert(in_columns(none, r.take(0)));
    if is_row(w, k, at, ds, lo, 0, r) {
        row_len(w, k, at, ds, lo, 0, r);
        assert(with_row(lo, names, r) =~= scope_with(lo, names, Seq::new(r.len(), |i: int| SV::Ground(r[i]))));
    }
}

proof fn row_len(w: World, k: nat, at: nat, ds: Seq<VarDeclV>, lo: Scope, i: int, r: Seq<Val>)
    requires
        is_row(w, k, at, ds, lo, i, r),
    ensures
        r.len() == declared(ds, i).len(),
    decreases ds.len() - i,
{
    if 0 <= i < ds.len() {
        row_len(w, k, at, ds, lo, i + 1, r.skip(ds[i].names.len() as int));
    }
}

/// A tuple or a set given by its members has the values of the listed expressions, in order.
pub proof fn listing_law(w: World, k: nat, at: nat, x: ExprV, lo: Scope, vs: Seq<SV>)
    ensures
        x.kind matches ExprKindV::TupleLit(es) ==> values_of(w, k, at, es, lo, vs) ==> value_of(w, k + 1, at, x, lo) == Ok::<
            SV,
            CEV,
        >(SV::Tuple(vs)),
        x.kind matches ExprKindV::SetList(es) ==> values_of(w, k, at, es, lo, vs) ==> value_of(w, k + 1, at, x, lo) == Ok::<
            SV,
            CEV,
        >(SV::Among(SetV::List(vs))),
{
    evaluation_rules(w, (k + 1) as nat);
    reveal(v_eval_inner);
    reveal(v_eval_use);
    reveal(v_eval_part);
    reveal(v_eval_binder);
    reveal(v_eval_rest);
    match x.kind {
        ExprKindV::TupleLit(es) => {
            if values_of(w, k, at, es, lo, vs) {
                exprs_are(w, k, at, es, lo, vs);
            }
        },
        ExprKindV::SetList(es) => {
            if values_of(w, k, at, es, lo, vs) {
                exprs_are(w, k, at, es, lo, vs);
            }
        },
        _ => {},
    }
}

pub proof fn exprs_are(w: World, k: nat, at: nat, xs: Seq<ExprV>, lo: Scope, vs: Seq<SV>)
    requires
        values_of(w, k, at, xs, lo, vs),
    ensures
        v_exprs(w, at, xs, lo, Seq::empty(), evaluation(w, k), 0) == Ok::<Seq<SV>, CEV>(vs),
{
    exprs_valued(w, k, at, xs, lo, Seq::empty(), 0);
    match v_exprs(w, at, xs, lo, Seq::empty(), evaluation(w, k), 0) {
        Ok(us) => {
            assert forall|i: int| 0 <= i < xs.len() implies us[i] == vs[i] by {
                assert(value_of(w, k, at, xs[i], lo) == Ok::<SV, CEV>(vs[i]));
            }
            assert(us =~= vs);
        },
        Err(_) => {},
    }
}

/// A selected component of a tuple has the value of that component, counted from 1.
pub proof fn component_law(w: World, k: nat, at: nat, x: ExprV, lo: Scope, env: Leaves, s: Seq<Val>)
    requires
        x.kind is TupleSelect,
        value_of(w, k, at, *x.kind->TupleSelect_0, lo) matches Ok(t) && !(t is Sym) && mean(t, env) == Some(Val::Tuple(s)),
        1 <= x.kind->TupleSelect_1 <= s.len(),
    ensures
        value_of(w, k + 1, at, x, lo) matches Ok(v) && mean(v, env) == Some(s[x.kind->TupleSelect_1 - 1]),
{
    evaluation_rules(w, (k + 1) as nat);
    reveal(v_eval_inner);
    reveal(v_eval_use);
    reveal(v_eval_part);
    let t = value_of(w, k, at, *x.kind->TupleSelect_0, lo)->Ok_0;
    let j = x.kind->TupleSelect_1;
    match t {
        SV::Tuple(vs) => {
            let os = means(vs, env);
            assert(os[j - 1] == mean(vs[j - 1], env));
        },
        _ => {},
    }
}

proof fn field_found<T>(fs: Seq<(Seq<char>, T)>, name: Seq<char>, i: int, p: int)
    requires
        0 <= i <= p < fs.len(),
        fs[p].0 == name,
        forall|j: int| 0 <= j < p ==> (#[trigger] fs[j]).0 != name,
    ensures
        crate::calc::field_place(fs, name, i) == Some(p as nat),
    decreases p - i,
{
    if i < p {
        assert(fs[i].0 != name);
        field_found(fs, name, i + 1, p);
    }
}

/// A selected field of a record has the value of the field of that name.
pub proof fn field_law(w: World, k: nat, at: nat, x: ExprV, lo: Scope, env: Leaves, fs: Seq<(Seq<char>, Val)>, p: int)
    requires
        x.kind is RecordSelect,
        value_of(w, k, at, *x.kind->RecordSelect_0, lo) matches Ok(t) && !(t is Sym) && mean(t, env) == Some(Val::Record(fs)),
        0 <= p < fs.len(),
        fs[p].0 == x.kind->RecordSelect_1.name,
        forall|j: int| 0 <= j < p ==> (#[trigger] fs[j]).0 != fs[p].0,
    ensures
        value_of(w, k + 1, at, x, lo) matches Ok(v) && mean(v, env) == Some(fs[p].1),
{
    evaluation_rules(w, (k + 1) as nat);
    reveal(v_eval_inner);
    reveal(v_eval_use);
    reveal(v_eval_part);
    let t = value_of(w, k, at, *x.kind->RecordSelect_0, lo)->Ok_0;
    let name = x.kind->RecordSelect_1.name;
    match t {
        SV::Record(gs) => {
            let os = crate::sval::field_means(gs, env);
            assert(os[p] == mean(gs[p].1, env));
            assert forall|j: int| 0 <= j < p implies (#[trigger] gs[j]).0 != name by {
                assert(fs[j].0 == gs[j].0);
            }
            assert(fs[p].0 == gs[p].0);
            field_found(gs, name, 0, p);
        },
        _ => {
            field_found(fs, name, 0, p);
        },
    }
}

/// An array at an index has the value of the element whose number the value of the index has.
pub proof fn element_law(
    w: World,
    k: nat,
    at: nat,
    x: ExprV,
    lo: Scope,
    env: Leaves,
    t: crate::ctype::CT,
    es: Seq<SV>,
    p: int,
)
    requires
        x.kind is ArraySelect,
        value_of(w, k, at, *x.kind->ArraySelect_0, lo) == Ok::<SV, CEV>(SV::Array(t, es)),
        value_of(w, k, at, *x.kind->ArraySelect_1, lo) matches Ok(j) && mean(j, env) == Some(values(t)->0[p]),
        values(t) is Some,
        values(t)->0.len() <= usize::MAX,
        0 <= p < es.len(),
        p < values(t)->0.len(),
        forall|q: int| 0 <= q < values(t)->0.len() && q != p ==> #[trigger] values(t)->0[q] != values(t)->0[p],
        forall|q: int| 0 <= q < es.len() ==> crate::sval::scalar(#[trigger] es[q]),
    ensures
        value_of(w, k + 1, at, x, lo) matches Ok(v) ==> mean(v, env) == mean(es[p], env),
{
    evaluation_rules(w, (k + 1) as nat);
    reveal(v_eval_inner);
    reveal(v_eval_use);
    reveal(crate::meaning::v_select);
    reveal(v_apply);
    let j = value_of(w, k, at, *x.kind->ArraySelect_1, lo)->Ok_0;
    let one = seq![j];
    assert(one.len() == 1 && one[0] == j);
    let vals = values(t)->0;
    match j {
        SV::Ground(v) => {
            assert(vals.contains(vals[p]));
            crate::ctype::lists_exactly(t, v);
            crate::ctype::position_is_place(t, v);
        },
        _ => {
            if crate::sval::picked(vals, es, j, 0) is Some {
                crate::sval::picked_picks(vals, es, j, 0);
                assert(mean(crate::sval::picked(vals, es, j, 0)->0, env) == mean(es[p], env));
            }
        },
    }
}

proof fn elements_are(
    w: World,
    k: nat,
    at: nat,
    vals: Seq<Val>,
    d: VarDeclV,
    b: ExprV,
    lo: Scope,
    acc: Seq<SV>,
    i: int,
)
    requires
        0 <= i <= vals.len(),
        acc.len() == i,
        d.names.len() > 0,
        forall|j: int|
            0 <= j < i ==> value_of(w, k, at, b, lo.push((d.names[0].name, SV::Ground(#[trigger] vals[j])))) == Ok::<
                SV,
                CEV,
            >(acc[j]),
    ensures
        crate::meaning::v_elements(w, at, vals, d.names, b, lo, acc, evaluation(w, k), i) matches Ok(es) ==> es.len()
            == vals.len() && forall|j: int|
            0 <= j < vals.len() ==> value_of(w, k, at, b, lo.push((d.names[0].name, SV::Ground(#[trigger] vals[j])))) == Ok::<
                SV,
                CEV,
            >(es[j]),
    decreases vals.len() - i,
{
    reveal_with_fuel(crate::meaning::v_elements, 2);
    if i < vals.len() {
        match value_of(w, k, at, b, lo.push((d.names[0].name, SV::Ground(vals[i])))) {
            Ok(t) => {
                elements_are(w, k, at, vals, d, b, lo, acc.push(t), i + 1);
            },
            Err(_) => {},
        }
    }
}

/// An array literal has, for each value of its variable, in order, the value of its body.
pub proof fn array_law(w: World, k: nat, at: nat, x: ExprV, lo: Scope)
    requires
        x.kind is ArrayLit,
        x.kind->ArrayLit_0.names.len() > 0,
        value_of(w, k + 1, at, x, lo) is Ok,
    ensures
        (evaluation(w, k).ctype)(at, x.kind->ArrayLit_0.ty, lo, Seq::empty()) matches Ok(t) && (values(t) matches Some(
            vals,
        ) && (value_of(w, k + 1, at, x, lo)->Ok_0 matches SV::Array(u, es) && u == t && es.len() == vals.len() && forall|
            j: int,
        |
            0 <= j < vals.len() ==> value_of(
                w,
                k,
                at,
                *x.kind->ArrayLit_1,
                lo.push((x.kind->ArrayLit_0.names[0].name, SV::Ground(#[trigger] vals[j]))),
            ) == Ok::<SV, CEV>(es[j]))),
{
    evaluation_rules(w, (k + 1) as nat);
    reveal(v_eval_inner);
    reveal(v_eval_use);
    reveal(v_eval_part);
    reveal(v_eval_binder);
    reveal(v_eval_rest);
    reveal(crate::meaning::v_array);
    let d = *x.kind->ArrayLit_0;
    let t = (evaluation(w, k).ctype)(at, d.ty, lo, Seq::empty())->Ok_0;
    elements_are(w, k, at, values(t)->0, d, *x.kind->ArrayLit_1, lo, Seq::empty(), 0);
}

/// A tuple, record or array with one part changed has the new value in that part and is the same elsewhere.
pub proof fn update_law(w: World, k: nat, at: nat, x: ExprV, lo: Scope, t: SV, v: SV)
    requires
        x.kind is Update,
        x.kind->accesses.len() == 1,
        value_of(w, k + 2, at, *x.kind->target, lo) == Ok::<SV, CEV>(t),
        value_of(w, k + 2, at, *x.kind->value, lo) == Ok::<SV, CEV>(v),
    ensures
        match (t, x.kind->accesses[0]) {
            (SV::Tuple(vs), AccessV::Tuple(n)) => 1 <= n <= vs.len() ==> value_of(w, k + 3, at, x, lo) == Ok::<SV, CEV>(
                SV::Tuple(vs.update(n - 1, v)),
            ),
            (SV::Record(fs), AccessV::Record(f)) => forall|p: int|
                0 <= p < fs.len() && (#[trigger] fs[p]).0 == f.name && (forall|j: int|
                    0 <= j < p ==> (#[trigger] fs[j]).0 != f.name) ==> value_of(w, k + 3, at, x, lo) == Ok::<SV, CEV>(
                    SV::Record(fs.update(p, (f.name, v))),
                ),
            (SV::Array(it, es), AccessV::Array(ie)) => match value_of(w, k + 1, at, ie, lo) {
                Ok(SV::Ground(i)) => (position(it, i) matches Some(p) && p < es.len()) ==> value_of(
                    w,
                    k + 3,
                    at,
                    x,
                    lo,
                ) == Ok::<SV, CEV>(SV::Array(it, es.update(position(it, i)->0 as int, v))),
                _ => true,
            },
            _ => true,
        },
{
    update_steps(w, k, at, x, lo);
    let acs = x.kind->accesses;
    reveal(v_update_step);
    reveal(v_update_part);
    reveal(v_update_field);
    reveal(v_update_at);
    match (t, acs[0]) {
        (SV::Record(fs), AccessV::Record(f)) => {
            assert forall|p: int|
                0 <= p < fs.len() && (#[trigger] fs[p]).0 == f.name && (forall|j: int|
                    0 <= j < p ==> (#[trigger] fs[j]).0 != f.name) implies value_of(w, k + 3, at, x, lo) == Ok::<SV, CEV>(
                SV::Record(fs.update(p, (f.name, v))),
            ) by {
                field_found(fs, f.name, 0, p);
            }
        },
        _ => {},
    }
}

proof fn update_steps(w: World, k: nat, at: nat, x: ExprV, lo: Scope)
    requires
        x.kind is Update,
        x.kind->accesses.len() == 1,
    ensures
        value_of(w, k + 3, at, x, lo) == match value_of(w, k + 2, at, *x.kind->target, lo) {
            Err(e) => Err(e),
            Ok(t) => match value_of(w, k + 2, at, *x.kind->value, lo) {
                Err(e) => Err(e),
                Ok(v) => v_update_step(w, at, t, x.kind->accesses, 0, v, x.span, lo, evaluation(w, k + 1)),
            },
        },
        forall|t: SV, v: SV| #[trigger]
            (evaluation(w, k + 1).update)(at, t, x.kind->accesses, 1, v, x.span, lo) == Ok::<SV, CEV>(v),
{
    evaluation_rules(w, k + 3);
    evaluation_rules(w, k + 2);
    evaluation_rules(w, k + 1);
    reveal(v_eval_inner);
    reveal(v_eval_use);
    reveal(v_eval_part);
    reveal(v_update_step);
}

proof fn updates_choose(
    w: World,
    g: crate::meaning::Calc,
    at: nat,
    vals: Seq<Val>,
    iv: SV,
    acs: Seq<AccessV>,
    val: SV,
    span: crate::span::Span,
    lo: Scope,
    es: Seq<SV>,
    acc: Seq<SV>,
    i: int,
    env: Leaves,
)
    requires
        0 <= i <= vals.len(),
        acc.len() == es.len(),
        vals.len() == es.len(),
        mean(iv, env) is Some,
        crate::sval::scalar(val),
        forall|q: int| 0 <= q < es.len() ==> crate::sval::scalar(#[trigger] es[q]),
        forall|q: int| i <= q < es.len() ==> #[trigger] acc[q] == es[q],
        forall|q: int|
            0 <= q < i ==> mean(#[trigger] acc[q], env) == mean(
                if mean(iv, env) == Some(vals[q]) {
                    val
                } else {
                    es[q]
                },
                env,
            ),
        forall|t: SV, v: SV| #[trigger] (g.update)(at, t, acs, 1, v, span, lo) == Ok::<SV, CEV>(v),
    ensures
        v_update_all(w, at, vals, iv, acs, 0, val, span, lo, acc, g, i) matches Ok(us) ==> us.len() == es.len() && (
        forall|q: int|
            0 <= q < es.len() ==> mean(#[trigger] us[q], env) == mean(
                if mean(iv, env) == Some(vals[q]) {
                    val
                } else {
                    es[q]
                },
                env,
            )),
    decreases vals.len() - i,
{
    reveal_with_fuel(v_update_all, 2);
    if i < vals.len() {
        let v = SV::Ground(vals[i]);
        if sv_eq(iv, v) is Some {
            let c = sv_eq(iv, v)->0;
            eq_tells(iv, v);
            assert(crate::sval::tells(c, iv, v));
            assert(acc[i] == es[i]);
            assert((g.update)(at, acc[i], acs, 1, val, span, lo) == Ok::<SV, CEV>(val));
            if crate::sval::sv_ite(c, val, acc[i]) is Some {
                let z = crate::sval::sv_ite(c, val, acc[i])->0;
                crate::sval::ite_chooses(c, val, acc[i]);
                assert(crate::sval::chosen(z, c, val, acc[i]));
                assert(mean(z, env) == mean(
                    if holds(sem(c, env)) {
                        val
                    } else {
                        acc[i]
                    },
                    env,
                ));
                assert(holds(sem(c, env)) == (mean(iv, env) == mean(v, env)));
                updates_choose(w, g, at, vals, iv, acs, val, span, lo, es, acc.update(i, z), i + 1, env);
            }
        }
    }
}

/// An array with the element at a symbolic index changed has the new value in the element whose number the index has,
/// and is the same elsewhere.
pub proof fn indexed_update_law(
    w: World,
    k: nat,
    at: nat,
    x: ExprV,
    lo: Scope,
    it: crate::ctype::CT,
    es: Seq<SV>,
    iv: SV,
    v: SV,
    env: Leaves,
)
    requires
        x.kind is Update,
        x.kind->accesses.len() == 1,
        x.kind->accesses[0] matches AccessV::Array(ie) && value_of(w, k + 1, at, ie, lo) == Ok::<SV, CEV>(iv),
        !(iv is Ground),
        mean(iv, env) is Some,
        value_of(w, k + 2, at, *x.kind->target, lo) == Ok::<SV, CEV>(SV::Array(it, es)),
        value_of(w, k + 2, at, *x.kind->value, lo) == Ok::<SV, CEV>(v),
        values(it) is Some,
        values(it)->0.len() == es.len(),
        crate::sval::scalar(v),
        forall|q: int| 0 <= q < es.len() ==> crate::sval::scalar(#[trigger] es[q]),
    ensures
        value_of(w, k + 3, at, x, lo) matches Ok(r) ==> (r matches SV::Array(jt, us) && jt == it && us.len() == es.len()
            && forall|q: int|
            0 <= q < es.len() ==> mean(#[trigger] us[q], env) == mean(
                if mean(iv, env) == Some(values(it)->0[q]) {
                    v
                } else {
                    es[q]
                },
                env,
            )),
{
    update_steps(w, k, at, x, lo);
    reveal(v_update_step);
    reveal(v_update_at);
    updates_choose(
        w,
        evaluation(w, k + 1),
        at,
        values(it)->0,
        iv,
        x.kind->accesses,
        v,
        x.span,
        lo,
        es,
        es,
        0,
        env,
    );
}

/// A name in scope stands for the innermost variable of that name, and so does a primed one for the variable of the next
/// state.
pub proof fn variable_law(w: World, k: nat, at: nat, x: ExprV, lo: Scope, name: Seq<char>, v: SV)
    requires
        match x.kind {
            ExprKindV::Name(n) => n.ctx is None,
            ExprKindV::Next(_i) => true,
            _ => false,
        },
    ensures
        ({
            let own = match x.kind {
                ExprKindV::Name(n) => n.id.name,
                _ => crate::calc::next_name(x.kind->Next_0.name),
            };
            let inner = lo.push((name, v));
            value_of(w, k + 1, at, x, inner) == if own == name {
                Ok::<SV, CEV>(v)
            } else {
                value_of(w, k + 1, at, x, lo)
            }
        }),
{
    evaluation_rules(w, k + 1);
    reveal(v_eval_inner);
    reveal(crate::meaning::v_name);
    let inner = lo.push((name, v));
    assert(inner.drop_last() =~= lo);
    reveal_with_fuel(crate::calc::local, 2);
}

/// A decimal numeral stands for its number, and a fraction for the quotient.
pub proof fn literal_law(w: World, k: nat, at: nat, x: ExprV, lo: Scope, n: int, d: int)
    requires
        d != 0,
    ensures
        x.kind == ExprKindV::Numeral(dec(n)) ==> value_of(w, k + 1, at, x, lo) == Ok::<SV, CEV>(
            SV::Ground(Val::Num(Q { n, d: 1 })),
        ),
        (x.kind == ExprKindV::Float { numer: dec(n), denom: dec(d) }) ==> (value_of(w, k + 1, at, x, lo) matches Ok(
            SV::Ground(Val::Num(z)),
        ) && z.d > 0 && z.n * d == n * z.d),
{
    evaluation_rules(w, k + 1);
    reveal(v_eval_inner);
    reveal(crate::meaning::v_fraction);
    numeral_law(n);
    numeral_law(d);
    ratio_value(n, d);
}

} // verus!
