//! What the sections of a base module mean.

use crate::ast::{rhs_value, BaseDeclV, DefOrCommandV, DefinitionV, ModuleV, SomeCommandV, VarDeclV};
use crate::blocks::{guards, head_name, with_init_block, with_init_def, with_invariant};
use crate::calc::{all_names, local, next_name, with_row};
use crate::compose::{framed_cmds, framed_nodes, other_blocks, section_trans};
use crate::compositions::{all_choices, begins, defined_in, gives, settled, stays, Built};
use crate::ctype::{all_rows_have, rows};
use crate::elaboration::{
    build, build_rules, f_assign, f_assign_value, f_base, f_base_vars, f_bound_columns, f_cmd_body, f_cmd_list,
    f_cmd_rows, f_commands, f_def_body, f_def_list, f_def_rows, f_effect, f_else_cmd, f_else_cmds, f_else_opt,
    f_expand_bindings, f_guard_of, f_guarded, f_guarded_by, f_guarded_opt, f_init_items, f_invariant_defs, f_lhs,
    f_lhs_steps, f_module_body, f_sections, f_simple, f_sub_vars, f_trans_items, DEPTH,
};
use crate::evaluations::{declared, is_row, names_declared, row_instance, scope_with, value_of, Scope};
use crate::fexpr::{all_hold, and_meaning, fe_not, fe_or, holds, sem, sems, LeafId, Leaves, FE};
use crate::flat::{allowed, allows, every, fires, some_cmd, Cmd, TN};
use crate::judgement::{World, CEV};
use crate::laws::{command_law, else_law, is_framed, keeps, stutter_law};
use crate::meaning::{evaluation, v_domains};
use crate::operators::condition;
use crate::skel::{fe_ids, state_locals, ElabV, LeafV, VarsV};
use crate::span::Span;
use crate::sval::{eq_tells, mean, sv_eq, SV};
use crate::value::Val;
use vstd::prelude::*;

verus! {

/// What a definition says holds.
pub open spec fn stated(w: World, k: nat, at: nat, d: DefinitionV, next: bool, lo: Scope, env: Leaves) -> bool {
    (build(w, k).def)(at, d, next, lo) matches Ok(c) && holds(sem(c, env))
}

/// What each definition says holds.
pub open spec fn all_stated(
    w: World,
    k: nat,
    at: nat,
    ds: Seq<DefinitionV>,
    next: bool,
    lo: Scope,
    env: Leaves,
) -> bool {
    forall|i: int| 0 <= i < ds.len() ==> stated(w, k, at, #[trigger] ds[i], next, lo, env)
}

/// The scope in which declared variables have the values of a row.
pub open spec fn row_scope(ds: Seq<VarDeclV>, lo: Scope, r: Seq<Val>) -> Scope {
    scope_with(lo, declared(ds, 0), Seq::new(r.len(), |i: int| SV::Ground(r[i])))
}

/// A definition of a variable by an expression says that both have the same value: the current value of the variable,
/// or its next value where the left side is primed.
pub proof fn equation_law(w: World, k: nat, at: nat, d: DefinitionV, next: bool, lo: Scope, env: Leaves, l: SV, v: SV)
    requires
        d is Simple,
        d->Simple_0.lhs.accesses.len() == 0,
        local(
            lo,
            if d->Simple_0.lhs.next {
                next_name(d->Simple_0.lhs.base.name)
            } else {
                d->Simple_0.lhs.base.name
            },
        ) == Some(l),
        d->Simple_0.rhs matches crate::ast::RhsV::Expr(e) && value_of(w, DEPTH as nat, at, e, lo) == Ok::<SV, CEV>(v),
        (build(w, k + 1).def)(at, d, next, lo) is Ok,
        mean(l, env) is Some,
        mean(v, env) is Some,
    ensures
        stated(w, k + 1, at, d, next, lo, env) == (mean(l, env) == mean(v, env)),
{
    build_rules(w, (k + 1) as nat);
    reveal(f_def_body);
    reveal(f_simple);
    reveal(f_lhs);
    reveal_with_fuel(f_lhs_steps, 2);
    reveal(f_assign);
    reveal(f_assign_value);
    reveal(head_name);
    reveal(rhs_value);
    eq_tells(l, v);
    assert(crate::sval::tells(sv_eq(l, v)->0, l, v));
}

pub proof fn hold_push(acc: Seq<FE>, c: FE, env: Leaves)
    ensures
        all_hold(sems(acc.push(c), env)) == (all_hold(sems(acc, env)) && holds(sem(c, env))),
{
    let a = sems(acc, env);
    let b = sems(acc.push(c), env);
    assert(b =~= a.push(sem(c, env)));
    if all_hold(b) {
        assert forall|i: int| 0 <= i < a.len() implies holds(#[trigger] a[i]) by {
            assert(holds(b[i]));
        }
        assert(holds(b[a.len() as int]));
    }
}

proof fn list_stated(
    w: World,
    k: nat,
    at: nat,
    ds: Seq<DefinitionV>,
    next: bool,
    lo: Scope,
    acc: Seq<FE>,
    i: int,
    env: Leaves,
)
    requires
        0 <= i <= ds.len(),
    ensures
        f_def_list(w, at, ds, next, lo, acc, build(w, k), i) matches Ok(cs) ==> all_hold(sems(cs, env)) == (all_hold(
            sems(acc, env),
        ) && forall|j: int| i <= j < ds.len() ==> stated(w, k, at, #[trigger] ds[j], next, lo, env)),
    decreases ds.len() - i,
{
    reveal_with_fuel(f_def_list, 2);
    if i < ds.len() {
        match (build(w, k).def)(at, ds[i], next, lo) {
            Ok(c) => {
                hold_push(acc, c, env);
                list_stated(w, k, at, ds, next, lo, acc.push(c), i + 1, env);
                assert(stated(w, k, at, ds[i], next, lo, env) == holds(sem(c, env)));
            },
            Err(_) => {},
        }
    }
}

proof fn rows_stated(
    w: World,
    k: nat,
    at: nat,
    rs: Seq<Seq<Val>>,
    names: Seq<Seq<char>>,
    ds: Seq<DefinitionV>,
    next: bool,
    lo: Scope,
    acc: Seq<FE>,
    i: int,
    env: Leaves,
)
    requires
        0 <= i <= rs.len(),
    ensures
        f_def_rows(w, at, rs, names, ds, next, lo, acc, build(w, k), i) matches Ok(cs) ==> all_hold(sems(cs, env)) == (
        all_hold(sems(acc, env)) && forall|j: int|
            i <= j < rs.len() ==> all_stated(w, k, at, ds, next, with_row(lo, names, #[trigger] rs[j]), env)),
    decreases rs.len() - i,
{
    reveal_with_fuel(f_def_rows, 2);
    if i < rs.len() {
        let inner = with_row(lo, names, rs[i]);
        list_stated(w, k, at, ds, next, inner, acc, 0, env);
        match f_def_list(w, at, ds, next, inner, acc, build(w, k), 0) {
            Ok(more) => {
                rows_stated(w, k, at, rs, names, ds, next, lo, more, i + 1, env);
                assert(all_stated(w, k, at, ds, next, inner, env) == forall|j: int|
                    0 <= j < ds.len() ==> stated(w, k, at, #[trigger] ds[j], next, inner, env));
            },
            Err(_) => {},
        }
    }
}

proof fn same_columns(
    w: World,
    at: nat,
    ds: Seq<VarDeclV>,
    span: Span,
    lo: Scope,
    acc: Seq<Seq<Val>>,
    g: crate::elaboration::Build,
    i: int,
)
    requires
        0 <= i <= ds.len(),
        f_bound_columns(w, at, ds, lo, acc, g, i) is Ok,
    ensures
        v_domains(w, at, ds, span, lo, acc, evaluation(w, DEPTH as nat), i) == f_bound_columns(w, at, ds, lo, acc, g, i),
    decreases ds.len() - i,
{
    reveal_with_fuel(f_bound_columns, 2);
    reveal_with_fuel(v_domains, 2);
    if i < ds.len() {
        let t = (evaluation(w, DEPTH as nat).ctype)(at, ds[i].ty, lo, Seq::empty())->Ok_0;
        let vs = crate::ctype::values(t)->0;
        same_columns(w, at, ds, span, lo, acc + crate::calc::columns_of(ds[i].names.len(), vs), g, i + 1);
    }
}

/// The rows that declarations expand to are those with a value of its type for each name.
proof fn expanded(w: World, at: nat, ds: Seq<VarDeclV>, lo: Scope, g: crate::elaboration::Build, r: Seq<Val>)
    requires
        f_expand_bindings(w, at, ds, lo, g) is Ok,
    ensures
        f_expand_bindings(w, at, ds, lo, g)->Ok_0.contains(r) == is_row(w, DEPTH as nat, at, ds, lo, 0, r),
        is_row(w, DEPTH as nat, at, ds, lo, 0, r) ==> with_row(lo, all_names(ds, 0, Seq::empty()), r) == row_scope(
            ds,
            lo,
            r,
        ),
{
    reveal(f_expand_bindings);
    let none = Seq::<Seq<Val>>::empty();
    let span: Span = arbitrary();
    same_columns(w, at, ds, span, lo, none, g, 0);
    let cols = f_bound_columns(w, at, ds, lo, none, g, 0)->Ok_0;
    all_rows_have(cols, r);
    let nn = Seq::<Seq<char>>::empty();
    names_declared(ds, 0, nn);
    assert(nn + declared(ds, 0) =~= declared(ds, 0));
    row_instance(w, DEPTH as nat, at, ds, span, lo, r, declared(ds, 0));
}

/// Definitions for all values of variables say what each says for each row of values.
pub proof fn forall_law(w: World, k: nat, at: nat, d: DefinitionV, next: bool, lo: Scope, env: Leaves)
    requires
        d is Forall,
        (build(w, k + 1).def)(at, d, next, lo) is Ok,
    ensures
        stated(w, k + 1, at, d, next, lo, env) == forall|r: Seq<Val>| #[trigger]
            is_row(w, DEPTH as nat, at, d->Forall_0, lo, 0, r) ==> all_stated(
                w,
                k,
                at,
                d->Forall_1,
                next,
                row_scope(d->Forall_0, lo, r),
                env,
            ),
{
    build_rules(w, (k + 1) as nat);
    reveal(f_def_body);
    let ds = d->Forall_0;
    let defs = d->Forall_1;
    let g = build(w, k);
    let rs = f_expand_bindings(w, at, ds, lo, g)->Ok_0;
    let names = all_names(ds, 0, Seq::empty());
    let none = Seq::<FE>::empty();
    let cs = f_def_rows(w, at, rs, names, defs, next, lo, none, g, 0)->Ok_0;
    rows_stated(w, k, at, rs, names, defs, next, lo, none, 0, env);
    and_meaning(cs, env);
    assert(all_hold(sems(none, env)));
    assert forall|j: int| 0 <= j < rs.len() implies is_row(w, DEPTH as nat, at, ds, lo, 0, #[trigger] rs[j])
        && with_row(lo, names, rs[j]) == row_scope(ds, lo, rs[j]) by {
        assert(rs.contains(rs[j]));
        expanded(w, at, ds, lo, g, rs[j]);
    }
    if stated(w, k + 1, at, d, next, lo, env) {
        assert forall|r: Seq<Val>| #[trigger] is_row(w, DEPTH as nat, at, ds, lo, 0, r) implies all_stated(
            w,
            k,
            at,
            defs,
            next,
            row_scope(ds, lo, r),
            env,
        ) by {
            expanded(w, at, ds, lo, g, r);
            let j = choose|j: int| 0 <= j < rs.len() && rs[j] == r;
            assert(all_stated(w, k, at, defs, next, with_row(lo, names, rs[j]), env));
        }
    } else {
        let j = choose|j: int|
            0 <= j < rs.len() && !all_stated(w, k, at, defs, next, with_row(lo, names, #[trigger] rs[j]), env);
        assert(is_row(w, DEPTH as nat, at, ds, lo, 0, rs[j]));
    }
}

/// The guard of a command holds, for some values of its variables, and, where it acts, so does what its assignments
/// say. A command without a guard is none of these.
pub open spec fn enabled(
    w: World,
    k: nat,
    at: nat,
    c: SomeCommandV,
    next: bool,
    lo: Scope,
    env: Leaves,
    acts: bool,
) -> bool
    decreases k,
{
    if k == 0 {
        false
    } else {
        match c {
            SomeCommandV::Guarded(x) => {
                &&& x.guard matches Some(e) && (value_of(w, DEPTH as nat, at, e, lo) matches Ok(v) && holds(mean(v, env)))
                &&& acts ==> all_stated(w, (k - 1) as nat, at, x.assignments, next, lo, env)
            },
            SomeCommandV::Multi(ds, b, _s) => exists|r: Seq<Val>| #[trigger]
                is_row(w, DEPTH as nat, at, ds, lo, 0, r) && enabled(
                    w,
                    (k - 1) as nat,
                    at,
                    *b,
                    next,
                    row_scope(ds, lo, r),
                    env,
                    acts,
                ),
        }
    }
}

/// The guard of one of the flat commands holds, and, where it acts, so does its condition.
pub open spec fn some_ready(cs: Seq<Cmd>, env: Leaves, acts: bool) -> bool {
    exists|i: int|
        0 <= i < cs.len() && holds(sem((#[trigger] cs[i]).guard, env)) && (acts ==> holds(sem(cs[i].constraint, env)))
}

proof fn ready_push(cs: Seq<Cmd>, c: Cmd, env: Leaves, acts: bool)
    ensures
        some_ready(cs.push(c), env, acts) == (some_ready(cs, env, acts) || (holds(sem(c.guard, env)) && (acts ==> holds(
            sem(c.constraint, env),
        )))),
{
    let d = cs.push(c);
    assert(d[cs.len() as int] == c);
    if some_ready(cs, env, acts) {
        let i = choose|i: int|
            0 <= i < cs.len() && holds(sem((#[trigger] cs[i]).guard, env)) && (acts ==> holds(
                sem(cs[i].constraint, env),
            ));
        assert(d[i] == cs[i]);
    }
    if some_ready(d, env, acts) {
        let i = choose|i: int|
            0 <= i < d.len() && holds(sem((#[trigger] d[i]).guard, env)) && (acts ==> holds(sem(d[i].constraint, env)));
        if i < cs.len() {
            assert(d[i] == cs[i]);
        }
    }
}

proof fn effect_stated(w: World, k: nat, at: nat, ds: Seq<DefinitionV>, next: bool, lo: Scope, env: Leaves)
    ensures
        f_effect(w, at, ds, next, lo, build(w, k)) matches Ok(d) ==> holds(sem(d, env)) == all_stated(
            w,
            k,
            at,
            ds,
            next,
            lo,
            env,
        ),
{
    reveal(f_effect);
    let none = Seq::<FE>::empty();
    list_stated(w, k, at, ds, next, lo, none, 0, env);
    assert(all_hold(sems(none, env)));
    match f_def_list(w, at, ds, next, lo, none, build(w, k), 0) {
        Ok(cs) => {
            and_meaning(cs, env);
        },
        Err(_) => {},
    }
}

/// The flat commands of a command are those of the values of its variables for which it is enabled.
pub proof fn command_runs(
    w: World,
    k: nat,
    at: nat,
    c: SomeCommandV,
    next: bool,
    lo: Scope,
    acc: Seq<Cmd>,
    env: Leaves,
    acts: bool,
)
    requires
        (build(w, k).cmd)(at, c, next, lo, acc) is Ok,
    ensures
        some_ready((build(w, k).cmd)(at, c, next, lo, acc)->Ok_0, env, acts) == (some_ready(acc, env, acts) || enabled(
            w,
            k,
            at,
            c,
            next,
            lo,
            env,
            acts,
        )),
    decreases k, 1nat, 0int,
{
    build_rules(w, k);
    if k > 0 {
        let m = (k - 1) as nat;
        let g = build(w, m);
        reveal(f_cmd_body);
        match c {
            SomeCommandV::Guarded(x) => {
                reveal(f_guarded);
                reveal(f_guarded_opt);
                reveal(f_guarded_by);
                reveal(f_guard_of);
                match x.guard {
                    Some(e) => {
                        let v = value_of(w, DEPTH as nat, at, e, lo)->Ok_0;
                        effect_stated(w, m, at, x.assignments, next, lo, env);
                        let d = f_effect(w, at, x.assignments, next, lo, g)->Ok_0;
                        let q = condition(v)->0;
                        assert(sem(q, env) == mean(v, env));
                        ready_push(acc, Cmd { label: crate::blocks::label_text(x.label), guard: q, constraint: d }, env, acts);
                    },
                    None => {},
                }
            },
            SomeCommandV::Multi(ds, b, _s) => {
                let rs = f_expand_bindings(w, at, ds, lo, g)->Ok_0;
                let names = all_names(ds, 0, Seq::empty());
                rows_run(w, m, at, rs, names, *b, next, lo, acc, 0, env, acts);
                if exists|j: int|
                    0 <= j < rs.len() && enabled(w, m, at, *b, next, with_row(lo, names, #[trigger] rs[j]), env, acts) {
                    let j = choose|j: int|
                        0 <= j < rs.len() && enabled(w, m, at, *b, next, with_row(lo, names, #[trigger] rs[j]), env, acts);
                    assert(rs.contains(rs[j]));
                    expanded(w, at, ds, lo, g, rs[j]);
                    assert(is_row(w, DEPTH as nat, at, ds, lo, 0, rs[j]));
                }
                if enabled(w, k, at, c, next, lo, env, acts) {
                    let r = choose|r: Seq<Val>| #[trigger]
                        is_row(w, DEPTH as nat, at, ds, lo, 0, r) && enabled(
                            w,
                            m,
                            at,
                            *b,
                            next,
                            row_scope(ds, lo, r),
                            env,
                            acts,
                        );
                    expanded(w, at, ds, lo, g, r);
                    let j = choose|j: int| 0 <= j < rs.len() && rs[j] == r;
                    assert(enabled(w, m, at, *b, next, with_row(lo, names, rs[j]), env, acts));
                }
            },
        }
    }
}

proof fn rows_run(
    w: World,
    k: nat,
    at: nat,
    rs: Seq<Seq<Val>>,
    names: Seq<Seq<char>>,
    c: SomeCommandV,
    next: bool,
    lo: Scope,
    acc: Seq<Cmd>,
    i: int,
    env: Leaves,
    acts: bool,
)
    requires
        0 <= i <= rs.len(),
        f_cmd_rows(w, at, rs, names, c, next, lo, acc, build(w, k), i) is Ok,
    ensures
        some_ready(f_cmd_rows(w, at, rs, names, c, next, lo, acc, build(w, k), i)->Ok_0, env, acts) == (some_ready(
            acc,
            env,
            acts,
        ) || exists|j: int|
            i <= j < rs.len() && enabled(w, k, at, c, next, with_row(lo, names, #[trigger] rs[j]), env, acts)),
    decreases k, 2nat, rs.len() - i,
{
    reveal_with_fuel(f_cmd_rows, 2);
    if i < rs.len() {
        let inner = with_row(lo, names, rs[i]);
        command_runs(w, k, at, c, next, inner, acc, env, acts);
        let more = (build(w, k).cmd)(at, c, next, inner, acc)->Ok_0;
        rows_run(w, k, at, rs, names, c, next, lo, more, i + 1, env, acts);
    }
}

/// An `ELSE` command.
pub open spec fn is_else(c: SomeCommandV) -> bool {
    c matches SomeCommandV::Guarded(x) && x.guard is None
}

/// A choice can run: one of its commands is enabled and acts, or none is enabled and an `ELSE` command acts.
pub open spec fn choice_runs(
    w: World,
    k: nat,
    at: nat,
    cs: Seq<SomeCommandV>,
    next: bool,
    lo: Scope,
    env: Leaves,
) -> bool {
    ||| exists|i: int| 0 <= i < cs.len() && enabled(w, k, at, #[trigger] cs[i], next, lo, env, true)
    ||| (forall|i: int| 0 <= i < cs.len() ==> !enabled(w, k, at, #[trigger] cs[i], next, lo, env, false)) && exists|i: int|
        0 <= i < cs.len() && is_else(#[trigger] cs[i]) && all_stated(
            w,
            k,
            at,
            cs[i]->Guarded_0.assignments,
            next,
            lo,
            env,
        )
}

proof fn list_runs(
    w: World,
    k: nat,
    at: nat,
    cs: Seq<SomeCommandV>,
    next: bool,
    lo: Scope,
    acc: Seq<Cmd>,
    i: int,
    env: Leaves,
    acts: bool,
)
    requires
        0 <= i <= cs.len(),
        f_cmd_list(w, at, cs, next, lo, acc, build(w, k), i) is Ok,
    ensures
        some_ready(f_cmd_list(w, at, cs, next, lo, acc, build(w, k), i)->Ok_0, env, acts) == (some_ready(acc, env, acts)
            || exists|j: int| i <= j < cs.len() && enabled(w, k, at, #[trigger] cs[j], next, lo, env, acts)),
    decreases cs.len() - i,
{
    reveal_with_fuel(f_cmd_list, 2);
    if i < cs.len() {
        command_runs(w, k, at, cs[i], next, lo, acc, env, acts);
        let more = (build(w, k).cmd)(at, cs[i], next, lo, acc)->Ok_0;
        list_runs(w, k, at, cs, next, lo, more, i + 1, env, acts);
    }
}

proof fn elses_run(
    w: World,
    k: nat,
    at: nat,
    cs: Seq<SomeCommandV>,
    next: bool,
    lo: Scope,
    neg: FE,
    acc: Seq<Cmd>,
    i: int,
    env: Leaves,
)
    requires
        0 <= i <= cs.len(),
        f_else_cmds(w, at, cs, next, lo, neg, acc, build(w, k), i) is Ok,
    ensures
        some_ready(f_else_cmds(w, at, cs, next, lo, neg, acc, build(w, k), i)->Ok_0, env, true) == (some_ready(
            acc,
            env,
            true,
        ) || (holds(sem(neg, env)) && exists|j: int|
            i <= j < cs.len() && is_else(#[trigger] cs[j]) && all_stated(
                w,
                k,
                at,
                cs[j]->Guarded_0.assignments,
                next,
                lo,
                env,
            ))),
    decreases cs.len() - i,
{
    reveal_with_fuel(f_else_cmds, 2);
    reveal(f_else_cmd);
    reveal(f_else_opt);
    if i < cs.len() {
        match cs[i] {
            SomeCommandV::Guarded(c) => {
                effect_stated(w, k, at, c.assignments, next, lo, env);
                let more = f_else_cmd(w, at, c, next, lo, neg, acc, build(w, k))->Ok_0;
                if c.guard is None {
                    let d = f_effect(w, at, c.assignments, next, lo, build(w, k))->Ok_0;
                    ready_push(
                        acc,
                        Cmd { label: crate::blocks::label_text(c.label), guard: neg, constraint: d },
                        env,
                        true,
                    );
                }
                elses_run(w, k, at, cs, next, lo, neg, more, i + 1, env);
            },
            _ => {
                elses_run(w, k, at, cs, next, lo, neg, acc, i + 1, env);
            },
        }
    }
}

/// One of the flat commands of a choice can run exactly where the choice can.
pub proof fn choice_law(w: World, k: nat, at: nat, cs: Seq<SomeCommandV>, next: bool, lo: Scope, env: Leaves)
    requires
        f_commands(w, at, cs, next, lo, build(w, k)) is Ok,
    ensures
        some_cmd(f_commands(w, at, cs, next, lo, build(w, k))->Ok_0, env) == choice_runs(w, k, at, cs, next, lo, env),
{
    reveal(f_commands);
    let none = Seq::<Cmd>::empty();
    let all = f_cmd_list(w, at, cs, next, lo, none, build(w, k), 0)->Ok_0;
    list_runs(w, k, at, cs, next, lo, none, 0, env, true);
    list_runs(w, k, at, cs, next, lo, none, 0, env, false);
    let neg = fe_not(fe_or(guards(all)));
    else_law(all, env);
    elses_run(w, k, at, cs, next, lo, neg, all, 0, env);
    assert(!some_ready(none, env, true) && !some_ready(none, env, false));
    assert(some_ready(all, env, false) == !holds(sem(neg, env)));
    let b = f_commands(w, at, cs, next, lo, build(w, k))->Ok_0;
    assert(some_ready(b, env, true) == some_cmd(b, env));
}

/// What an item of an initialization says holds.
pub open spec fn item_begins(w: World, k: nat, at: nat, d: DefOrCommandV, lo: Scope, env: Leaves) -> bool {
    match d {
        DefOrCommandV::Def(x) => stated(w, k, at, x, false, lo, env),
        DefOrCommandV::Commands(cs, _s) => choice_runs(w, k, at, cs, false, lo, env),
    }
}

/// What an item of a transition section says holds, of what leaves have next values.
pub open spec fn item_moves(w: World, k: nat, at: nat, d: DefOrCommandV, lo: Scope, env: Leaves) -> bool {
    match d {
        DefOrCommandV::Def(x) => stated(w, k, at, x, true, lo, env),
        DefOrCommandV::Commands(cs, _s) => choice_runs(w, k, at, cs, true, lo, env),
    }
}

proof fn choices_push(cs: Seq<Seq<Cmd>>, b: Seq<Cmd>, env: Leaves)
    ensures
        all_choices(cs.push(b), env) == (all_choices(cs, env) && some_cmd(b, env)),
{
    let d = cs.push(b);
    assert(d[cs.len() as int] == b);
    if all_choices(d, env) {
        assert forall|i: int| 0 <= i < cs.len() implies some_cmd(#[trigger] cs[i], env) by {
            assert(d[i] == cs[i]);
        }
    }
}

proof fn defs_stay(w: World, k: nat, at: nat, v: Seq<DefinitionV>, lo: Scope, e: ElabV, i: int, env: Leaves)
    requires
        0 <= i <= v.len(),
        f_invariant_defs(w, at, v, lo, e, build(w, k), i) is Ok,
    ensures
        ({
            let r = f_invariant_defs(w, at, v, lo, e, build(w, k), i)->Ok_0;
            &&& stays(r, env) == (stays(e, env) && forall|j: int|
                i <= j < v.len() ==> stated(w, k, at, #[trigger] v[j], false, lo, env))
            &&& r == ElabV { invariants: r.invariants, def_next: r.def_next, ..e }
        }),
    decreases v.len() - i,
{
    reveal_with_fuel(f_invariant_defs, 2);
    if i < v.len() {
        let g = build(w, k);
        let c = (g.def)(at, v[i], false, lo)->Ok_0;
        hold_push(e.invariants, c, env);
        let hs = (g.heads)(at, v[i], lo, Seq::empty())->Ok_0;
        defs_stay(w, k, at, v, lo, crate::blocks::with_defined(with_invariant(e, c), hs), i + 1, env);
        assert(stated(w, k, at, v[i], false, lo, env) == holds(sem(c, env)));
    }
}

proof fn items_begin(w: World, k: nat, at: nat, v: Seq<DefOrCommandV>, lo: Scope, e: ElabV, i: int, env: Leaves)
    requires
        0 <= i <= v.len(),
        f_init_items(w, at, v, lo, e, build(w, k), i) is Ok,
    ensures
        ({
            let r = f_init_items(w, at, v, lo, e, build(w, k), i)->Ok_0;
            &&& begins(r, env) == (begins(e, env) && forall|j: int|
                i <= j < v.len() ==> item_begins(w, k, at, #[trigger] v[j], lo, env))
            &&& r == ElabV { init_defs: r.init_defs, init_choices: r.init_choices, ..e }
        }),
    decreases v.len() - i,
{
    reveal_with_fuel(f_init_items, 2);
    if i < v.len() {
        let g = build(w, k);
        match v[i] {
            DefOrCommandV::Def(d) => {
                let c = (g.def)(at, d, false, lo)->Ok_0;
                hold_push(e.init_defs, c, env);
                items_begin(w, k, at, v, lo, with_init_def(e, c), i + 1, env);
                assert(item_begins(w, k, at, v[i], lo, env) == holds(sem(c, env)));
            },
            DefOrCommandV::Commands(cs, _s) => {
                let b = f_commands(w, at, cs, false, lo, g)->Ok_0;
                choice_law(w, k, at, cs, false, lo, env);
                choices_push(e.init_choices, b, env);
                items_begin(w, k, at, v, lo, with_init_block(e, b), i + 1, env);
                assert(item_begins(w, k, at, v[i], lo, env) == some_cmd(b, env));
            },
        }
    }
}

proof fn items_move(
    w: World,
    k: nat,
    at: nat,
    v: Seq<DefOrCommandV>,
    lo: Scope,
    e: ElabV,
    bs: Seq<Seq<Cmd>>,
    i: int,
    env: Leaves,
)
    requires
        0 <= i <= v.len(),
        f_trans_items(w, at, v, lo, e, bs, build(w, k), i) is Ok,
    ensures
        ({
            let (r, cs) = f_trans_items(w, at, v, lo, e, bs, build(w, k), i)->Ok_0;
            &&& defined_in(r, env) == (defined_in(e, env) && forall|j: int|
                i <= j < v.len() && (#[trigger] v[j]) is Def ==> item_moves(w, k, at, v[j], lo, env))
            &&& all_choices(cs, env) == (all_choices(bs, env) && forall|j: int|
                i <= j < v.len() && (#[trigger] v[j]) is Commands ==> item_moves(w, k, at, v[j], lo, env))
            &&& r == ElabV { trans_defs: r.trans_defs, def_next: r.def_next, ..e }
        }),
    decreases v.len() - i,
{
    reveal_with_fuel(f_trans_items, 2);
    if i < v.len() {
        let g = build(w, k);
        match v[i] {
            DefOrCommandV::Def(d) => {
                let c = (g.def)(at, d, true, lo)->Ok_0;
                let hs = (g.heads)(at, d, lo, Seq::empty())->Ok_0;
                hold_push(e.trans_defs, c, env);
                let e1 = crate::blocks::with_defined(crate::blocks::with_trans_def(e, c), hs);
                items_move(w, k, at, v, lo, e1, bs, i + 1, env);
                assert(item_moves(w, k, at, v[i], lo, env) == holds(sem(c, env)));
            },
            DefOrCommandV::Commands(cs, _s) => {
                let b = f_commands(w, at, cs, true, lo, g)->Ok_0;
                choice_law(w, k, at, cs, true, lo, env);
                choices_push(bs, b, env);
                items_move(w, k, at, v, lo, e, bs.push(b), i + 1, env);
                assert(item_moves(w, k, at, v[i], lo, env) == some_cmd(b, env));
            },
        }
    }
}

/// One command of choice `i` fires, and every controlled leaf keeps its value that is given no next value: not by the
/// command, not by a definition and not by another choice.
pub open spec fn moves_framed(
    bs: Seq<Seq<Cmd>>,
    i: int,
    controlled: Seq<LeafId>,
    given: Seq<LeafId>,
    n: nat,
    env: Leaves,
) -> bool {
    exists|c: int|
        0 <= c < bs[i].len() && fires(#[trigger] bs[i][c], env) && forall|l: LeafId|
            l < n && #[trigger] is_framed(
                controlled,
                fe_ids(bs[i][c].constraint, true, Seq::empty()),
                other_blocks(bs, i, 0, given),
                l,
            ) ==> keeps(env, l)
}

/// A transition section allows a step where each of its choices does.
pub proof fn section_law(bs: Seq<Seq<Cmd>>, controlled: Seq<LeafId>, given: Seq<LeafId>, n: nat, env: Leaves)
    requires
        n <= u32::MAX,
        settled(n, env),
    ensures
        allows(section_trans(bs, controlled, given, n), env) == forall|i: int|
            0 <= i < bs.len() ==> #[trigger] moves_framed(bs, i, controlled, given, n, env),
{
    reveal_with_fuel(allows, 3);
    let ns = framed_nodes(bs, controlled, given, n);
    let oks = allowed(ns, env);
    assert forall|i: int| 0 <= i < bs.len() implies #[trigger] moves_framed(bs, i, controlled, given, n, env) == oks[i] && oks[i] == allows(ns[i], env) by {
        let others = other_blocks(bs, i, 0, given);
        let fs = framed_cmds(bs[i], controlled, others, n, 0, Seq::empty());
        assert(ns[i] == TN::Cmds(fs));
        if bs[i].len() == 0 {
            assert(fs.len() == 0);
        }
        assert forall|c: int| 0 <= c < bs[i].len() implies fs.len() == bs[i].len() && (#[trigger] fs[c]).guard == bs[i][c].guard && holds(
            sem(fs[c].constraint, env),
        ) == (holds(sem(bs[i][c].constraint, env)) && forall|l: LeafId|
            l < n && #[trigger] is_framed(
                controlled,
                fe_ids(bs[i][c].constraint, true, Seq::empty()),
                others,
                l,
            ) ==> keeps(env, l)) by {
            command_law(bs[i], controlled, others, n, c, env);
        }
        if some_cmd(fs, env) {
            let c = choose|c: int| 0 <= c < fs.len() && holds(sem((#[trigger] fs[c]).guard, env)) && holds(
                sem(fs[c].constraint, env),
            );
            if bs[i].len() > 0 {
                command_law(bs[i], controlled, others, n, 0, env);
            }
            assert(fires(bs[i][c], env));
        }
        if moves_framed(bs, i, controlled, given, n, env) {
            let c = choose|c: int|
                0 <= c < bs[i].len() && fires(#[trigger] bs[i][c], env) && forall|l: LeafId|
                    l < n && #[trigger] is_framed(
                        controlled,
                        fe_ids(bs[i][c].constraint, true, Seq::empty()),
                        others,
                        l,
                    ) ==> keeps(env, l);
            assert(holds(sem(fs[c].guard, env)));
        }
    }
    if bs.len() == 1 {
        assert(moves_framed(bs, 0, controlled, given, n, env) == allows(ns[0], env));
    } else if bs.len() > 1 {
        assert(allows(TN::All(ns), env) == every(oks));
        if every(oks) {
            assert forall|i: int| 0 <= i < bs.len() implies #[trigger] moves_framed(bs, i, controlled, given, n, env) by {
                assert(oks[i]);
            }
        } else {
            let i = choose|i: int| 0 <= i < oks.len() && !(#[trigger] oks[i]);
            assert(!moves_framed(bs, i, controlled, given, n, env));
        }
    }
}

/// What the sections from `i` on say of every state holds.
pub open spec fn sections_stay(w: World, k: nat, at: nat, v: Seq<BaseDeclV>, lo: Scope, i: int, env: Leaves) -> bool {
    forall|j: int|
        i <= j < v.len() && (#[trigger] v[j]) is Definition ==> all_stated(
            w,
            k,
            at,
            v[j]->Definition_0,
            false,
            lo,
            env,
        )
}

/// What the sections from `i` on say of the first state holds.
pub open spec fn sections_begin(w: World, k: nat, at: nat, v: Seq<BaseDeclV>, lo: Scope, i: int, env: Leaves) -> bool {
    forall|j: int|
        i <= j < v.len() && (#[trigger] v[j]) is Initialization ==> init_holds(
            w,
            k,
            at,
            v[j]->Initialization_0,
            lo,
            env,
        )
}

/// What each item of an initialization says holds.
pub open spec fn init_holds(w: World, k: nat, at: nat, ds: Seq<DefOrCommandV>, lo: Scope, env: Leaves) -> bool {
    forall|m: int| 0 <= m < ds.len() ==> item_begins(w, k, at, #[trigger] ds[m], lo, env)
}

/// What the definitions of the transition sections from `i` on say holds.
pub open spec fn sections_define(w: World, k: nat, at: nat, v: Seq<BaseDeclV>, lo: Scope, i: int, env: Leaves) -> bool {
    forall|j: int|
        i <= j < v.len() && (#[trigger] v[j]) is Transition ==> defs_move(w, k, at, v[j]->Transition_0, lo, env)
}

/// What the definitions of a transition section say holds.
pub open spec fn defs_move(w: World, k: nat, at: nat, ds: Seq<DefOrCommandV>, lo: Scope, env: Leaves) -> bool {
    forall|m: int| 0 <= m < ds.len() && (#[trigger] ds[m]) is Def ==> item_moves(w, k, at, ds[m], lo, env)
}

/// Each choice of a transition section can run.
pub open spec fn choices_move(w: World, k: nat, at: nat, ds: Seq<DefOrCommandV>, lo: Scope, env: Leaves) -> bool {
    forall|m: int| 0 <= m < ds.len() && (#[trigger] ds[m]) is Commands ==> item_moves(w, k, at, ds[m], lo, env)
}

/// The relation is that of a transition section in which each choice can run exactly if `moves`.
pub open spec fn relation_of(t: TN, controlled: Seq<LeafId>, n: nat, moves: bool, env: Leaves) -> bool {
    exists|bs: Seq<Seq<Cmd>>, given: Seq<LeafId>|
        t == #[trigger] section_trans(bs, controlled, given, n) && all_choices(bs, env) == moves
}

/// What the sections of a base module add to what is said before them.
pub proof fn sections_say(
    w: World,
    k: nat,
    at: nat,
    v: Seq<BaseDeclV>,
    lo: Scope,
    n: nat,
    e: ElabV,
    i: int,
    env: Leaves,
)
    requires
        0 <= i <= v.len(),
        f_sections(w, at, v, lo, n, e, build(w, k), i) is Ok,
    ensures
        ({
            let r = f_sections(w, at, v, lo, n, e, build(w, k), i)->Ok_0;
            &&& stays(r, env) == (stays(e, env) && sections_stay(w, k, at, v, lo, i, env))
            &&& begins(r, env) == (begins(e, env) && sections_begin(w, k, at, v, lo, i, env))
            &&& defined_in(r, env) == (defined_in(e, env) && sections_define(w, k, at, v, lo, i, env))
            &&& r.vars == e.vars && r.controlled == e.controlled
        }),
    decreases v.len() - i,
{
    reveal_with_fuel(f_sections, 2);
    if i < v.len() {
        let g = build(w, k);
        sections_split(w, k, at, v, lo, i, env);
        match v[i] {
            BaseDeclV::Vars(_c, _d) => {
                sections_say(w, k, at, v, lo, n, e, i + 1, env);
            },
            BaseDeclV::Definition(ds) => {
                defs_stay(w, k, at, ds, lo, e, 0, env);
                let e1 = f_invariant_defs(w, at, ds, lo, e, g, 0)->Ok_0;
                sections_say(w, k, at, v, lo, n, e1, i + 1, env);
            },
            BaseDeclV::Initialization(ds) => {
                items_begin(w, k, at, ds, lo, e, 0, env);
                let e1 = f_init_items(w, at, ds, lo, e, g, 0)->Ok_0;
                sections_say(w, k, at, v, lo, n, e1, i + 1, env);
            },
            BaseDeclV::Transition(ds) => {
                let nob = Seq::<Seq<Cmd>>::empty();
                items_move(w, k, at, ds, lo, e, nob, 0, env);
                let (e1, bs) = f_trans_items(w, at, ds, lo, e, nob, g, 0)->Ok_0;
                let t = section_trans(bs, e1.controlled, e1.def_next, n);
                sections_say(w, k, at, v, lo, n, crate::blocks::with_trans(e1, t), i + 1, env);
            },
        }
    }
}

proof fn sections_split(w: World, k: nat, at: nat, v: Seq<BaseDeclV>, lo: Scope, i: int, env: Leaves)
    requires
        0 <= i < v.len(),
    ensures
        sections_stay(w, k, at, v, lo, i, env) == (sections_stay(w, k, at, v, lo, i + 1, env) && (v[i] is Definition
            ==> all_stated(w, k, at, v[i]->Definition_0, false, lo, env))),
        sections_begin(w, k, at, v, lo, i, env) == (sections_begin(w, k, at, v, lo, i + 1, env) && (
        v[i] is Initialization ==> init_holds(w, k, at, v[i]->Initialization_0, lo, env))),
        sections_define(w, k, at, v, lo, i, env) == (sections_define(w, k, at, v, lo, i + 1, env) && (
        v[i] is Transition ==> defs_move(w, k, at, v[i]->Transition_0, lo, env))),
{
}

/// There is a transition section, and `ds` is the last, from section `i` on.
pub open spec fn last_section(v: Seq<BaseDeclV>, i: int, ds: Seq<DefOrCommandV>) -> bool {
    exists|j: int|
        i <= j < v.len() && (#[trigger] v[j]) == BaseDeclV::Transition(ds) && forall|m: int|
            j < m < v.len() ==> !((#[trigger] v[m]) is Transition)
}

/// There is no transition section from section `i` on.
pub open spec fn no_section(v: Seq<BaseDeclV>, i: int) -> bool {
    forall|j: int| i <= j < v.len() ==> !((#[trigger] v[j]) is Transition)
}

proof fn last_split(v: Seq<BaseDeclV>, i: int, ds: Seq<DefOrCommandV>)
    requires
        0 <= i < v.len(),
    ensures
        no_section(v, i) == (no_section(v, i + 1) && !(v[i] is Transition)),
        last_section(v, i, ds) == (last_section(v, i + 1, ds) || (no_section(v, i + 1) && v[i] == BaseDeclV::Transition(
            ds,
        ))),
{
    if last_section(v, i, ds) {
        let j = choose|j: int|
            i <= j < v.len() && (#[trigger] v[j]) == BaseDeclV::Transition(ds) && forall|m: int|
                j < m < v.len() ==> !((#[trigger] v[m]) is Transition);
        if j > i {
            assert(v[j] == BaseDeclV::Transition(ds));
        }
    }
}

proof fn sections_move(
    w: World,
    k: nat,
    at: nat,
    v: Seq<BaseDeclV>,
    lo: Scope,
    n: nat,
    e: ElabV,
    i: int,
    ds: Seq<DefOrCommandV>,
    env: Leaves,
)
    requires
        0 <= i <= v.len(),
        f_sections(w, at, v, lo, n, e, build(w, k), i) is Ok,
    ensures
        ({
            let r = f_sections(w, at, v, lo, n, e, build(w, k), i)->Ok_0;
            &&& no_section(v, i) ==> r.trans == e.trans
            &&& last_section(v, i, ds) ==> relation_of(
                r.trans,
                e.controlled,
                n,
                choices_move(w, k, at, ds, lo, env),
                env,
            )
        }),
    decreases v.len() - i,
{
    reveal_with_fuel(f_sections, 2);
    if i < v.len() {
        let g = build(w, k);
        last_split(v, i, ds);
        match v[i] {
            BaseDeclV::Vars(_c, _d) => {
                sections_move(w, k, at, v, lo, n, e, i + 1, ds, env);
            },
            BaseDeclV::Definition(xs) => {
                defs_stay(w, k, at, xs, lo, e, 0, env);
                let e1 = f_invariant_defs(w, at, xs, lo, e, g, 0)->Ok_0;
                sections_move(w, k, at, v, lo, n, e1, i + 1, ds, env);
            },
            BaseDeclV::Initialization(xs) => {
                items_begin(w, k, at, xs, lo, e, 0, env);
                let e1 = f_init_items(w, at, xs, lo, e, g, 0)->Ok_0;
                sections_move(w, k, at, v, lo, n, e1, i + 1, ds, env);
            },
            BaseDeclV::Transition(xs) => {
                let nob = Seq::<Seq<Cmd>>::empty();
                items_move(w, k, at, xs, lo, e, nob, 0, env);
                let (e1, bs) = f_trans_items(w, at, xs, lo, e, nob, g, 0)->Ok_0;
                let t = section_trans(bs, e1.controlled, e1.def_next, n);
                assert(all_choices(nob, env));
                assert(choices_move(w, k, at, xs, lo, env) == all_choices(bs, env));
                assert(relation_of(t, e.controlled, n, choices_move(w, k, at, xs, lo, env), env));
                sections_move(w, k, at, v, lo, n, crate::blocks::with_trans(e1, t), i + 1, ds, env);
            },
        }
    }
}

/// A base module says of every state what its definitions say, of the first state what its initializations say, and of
/// every step what the definitions and the choices of its last transition section say. Where it has no such section,
/// its steps keep every leaf which it controls and no definition gives. The returned module is the one of the declared
/// variables alone.
pub proof fn base_law(
    w: World,
    k: nat,
    at: nat,
    x: ModuleV,
    lo: Scope,
    amb: VarsV,
    ls: Seq<LeafV>,
    r: Built,
    env: Leaves,
) -> (e: ElabV)
    requires
        x.kind is Base,
        gives(w, k + 1, at, x, lo, amb, ls, r),
        settled(r.2.len(), env),
    ensures
        ({
            let ds = x.kind->Base_0.decls;
            let inner = state_locals(lo, e.vars, 0);
            &&& r.0.vars == e.vars && r.0.controlled == e.controlled
            &&& stays(r.0, env) == (stays(e, env) && sections_stay(w, k, at, ds, inner, 0, env))
            &&& begins(r.0, env) == (begins(e, env) && sections_begin(w, k, at, ds, inner, 0, env))
            &&& defined_in(r.0, env) == (defined_in(e, env) && sections_define(w, k, at, ds, inner, 0, env))
            &&& no_section(ds, 0) ==> allows(r.0.trans, env) == forall|l: LeafId|
                l < r.2.len() && #[trigger] is_framed(r.0.controlled, Seq::empty(), r.0.def_next, l) ==> keeps(env, l)
            &&& forall|ts: Seq<DefOrCommandV>| #[trigger]
                last_section(ds, 0, ts) ==> relation_of(
                    r.0.trans,
                    r.0.controlled,
                    r.2.len(),
                    choices_move(w, k, at, ts, inner, env),
                    env,
                )
        }),
{
    build_rules(w, (k + 1) as nat);
    reveal(f_module_body);
    reveal(f_base);
    let g = build(w, k);
    let b = x.kind->Base_0;
    let (e1, ls1) = f_base_vars(w, at, b.decls, lo, amb, crate::blocks::no_elab(), ls, g, 0)->Ok_0;
    let e2 = f_sub_vars(w, at, b.decls, lo, e1, g, 0)->Ok_0;
    let inner = state_locals(lo, e2.vars, 0);
    let n = ls1.len();
    sections_say(w, k, at, b.decls, inner, n, e2, 0, env);
    let e3 = f_sections(w, at, b.decls, inner, n, e2, g, 0)->Ok_0;
    stutter_law(e3, n, env);
    assert(crate::blocks::has_transition(b.decls) == !no_section(b.decls, 0));
    assert forall|ts: Seq<DefOrCommandV>| #[trigger] last_section(b.decls, 0, ts) implies relation_of(
        r.0.trans,
        r.0.controlled,
        n,
        choices_move(w, k, at, ts, inner, env),
        env,
    ) by {
        sections_move(w, k, at, b.decls, inner, n, e2, 0, ts, env);
        assert(!no_section(b.decls, 0));
    }
    assert(r.2 == ls1);
    assert(r.0.invariants == e3.invariants && r.0.init_defs == e3.init_defs && r.0.init_choices == e3.init_choices);
    assert(r.0.trans_defs == e3.trans_defs && r.0.def_next == e3.def_next && r.0.controlled == e3.controlled);
    e2
}

proof fn state_kept(lo: Scope, vars: VarsV, i: int, name: Seq<char>)
    requires
        0 <= i <= vars.len(),
        forall|j: int| i <= j < vars.len() ==> (#[trigger] vars[j]).0 != name && next_name(vars[j].0) != name,
    ensures
        local(state_locals(lo, vars, i), name) == local(lo, name),
    decreases vars.len() - i,
{
    if i < vars.len() {
        let a = lo.push((vars[i].0, vars[i].1.skel));
        let b = a.push((next_name(vars[i].0), crate::sval::sv_primed(vars[i].1.skel)));
        assert(b.drop_last() =~= a);
        assert(a.drop_last() =~= lo);
        reveal_with_fuel(local, 3);
        state_kept(b, vars, i + 1, name);
    }
}

/// In the sections of a module a state variable stands for its leaves in the current state, and primed for its leaves
/// in the next one.
pub proof fn state_law(lo: Scope, vars: VarsV, i: int, p: int)
    requires
        0 <= i <= p < vars.len(),
        vars[p].0 != next_name(vars[p].0),
        forall|j: int|
            p < j < vars.len() ==> (#[trigger] vars[j]).0 != vars[p].0 && next_name(vars[j].0) != vars[p].0 && vars[j].0
                != next_name(vars[p].0) && next_name(vars[j].0) != next_name(vars[p].0),
    ensures
        local(state_locals(lo, vars, i), vars[p].0) == Some(vars[p].1.skel),
        local(state_locals(lo, vars, i), next_name(vars[p].0)) == Some(crate::sval::sv_primed(vars[p].1.skel)),
    decreases vars.len() - i,
{
    let a = lo.push((vars[i].0, vars[i].1.skel));
    let b = a.push((next_name(vars[i].0), crate::sval::sv_primed(vars[i].1.skel)));
    if i < p {
        state_law(b, vars, i + 1, p);
    } else {
        assert(b.drop_last() =~= a);
        reveal_with_fuel(local, 3);
        state_kept(b, vars, i + 1, vars[p].0);
        state_kept(b, vars, i + 1, next_name(vars[p].0));
    }
}

} // verus!
