//! Which leaves a module controls, and which a definition or a command gives.

use crate::ast::{BaseDeclV, DefinitionV, IdentV, ModuleV, TypeV, VarClass, VarDeclV};
use crate::blocks::{head_name, with_constraint, with_var};
use crate::calc::{field_place, local, next_name};
use crate::compose::{assigned, other_blocks};
use crate::compositions::{gives, Built};
use crate::ctype::CT;
use crate::elaboration::{
    build, build_rules, f_base, f_base_groups, f_base_names, f_base_vars, f_head_of, f_heads_of, f_lhs, f_lhs_steps,
    f_module_body, f_sub_groups, f_sub_names, f_sub_vars, DEPTH,
};
use crate::evaluations::Scope;
use crate::fexpr::{LeafId, Leaves, FE};
use crate::flat::Cmd;
use crate::judgement::World;
use crate::meaning::evaluation;
use crate::sections::sections_say;
use crate::skel::{
    ambient, fe_ids, fe_ids_from, field_ids_from, state_locals, sv_ids, sv_ids_from, ElabV, LeafV, VarE, VarsV,
};
use crate::span::Span;
use crate::sval::SV;
use vstd::prelude::*;

verus! {

/// The leaf occurs in the expression, in the next state where `next`.
pub open spec fn occurs(e: FE, l: LeafId, next: bool) -> bool
    decreases e,
{
    match e {
        FE::Const(_v) => false,
        FE::Var(m, p) => m == l && (p || !next),
        FE::Not(a) => occurs(*a, l, next),
        FE::Neg(a) => occurs(*a, l, next),
        FE::And(es) => occurs_in(es, l, next),
        FE::Or(es) => occurs_in(es, l, next),
        FE::Add(es) => occurs_in(es, l, next),
        FE::Mul(es) => occurs_in(es, l, next),
        FE::Ite(a, b, c) => occurs(*a, l, next) || occurs(*b, l, next) || occurs(*c, l, next),
        FE::Eq(a, b) => occurs(*a, l, next) || occurs(*b, l, next),
        FE::Lt(a, b) => occurs(*a, l, next) || occurs(*b, l, next),
        FE::Le(a, b) => occurs(*a, l, next) || occurs(*b, l, next),
        FE::Div(a, b) => occurs(*a, l, next) || occurs(*b, l, next),
        FE::IDiv(a, b) => occurs(*a, l, next) || occurs(*b, l, next),
        FE::Mod(a, b) => occurs(*a, l, next) || occurs(*b, l, next),
    }
}

/// The leaf occurs in one of the expressions.
pub open spec fn occurs_in(es: Seq<FE>, l: LeafId, next: bool) -> bool
    decreases es,
{
    exists|i: int| 0 <= i < es.len() && occurs(#[trigger] es[i], l, next)
}

proof fn push_has(s: Seq<LeafId>, x: LeafId, l: LeafId)
    ensures
        s.push(x).contains(l) == (s.contains(l) || x == l),
{
    assert(s.push(x)[s.len() as int] == x);
    if s.contains(l) {
        let i = choose|i: int| 0 <= i < s.len() && s[i] == l;
        assert(s.push(x)[i] == l);
    }
    if s.push(x).contains(l) && x != l {
        let i = choose|i: int| 0 <= i < s.push(x).len() && s.push(x)[i] == l;
        assert(s[i] == l);
    }
}

/// The leaves that are listed of an expression are those that occur in it.
pub proof fn leaves_occur(e: FE, next: bool, acc: Seq<LeafId>, l: LeafId)
    ensures
        fe_ids(e, next, acc).contains(l) == (acc.contains(l) || occurs(e, l, next)),
    decreases e, 0int,
{
    reveal_with_fuel(occurs, 2);
    reveal_with_fuel(fe_ids, 2);
    match e {
        FE::Const(_v) => {},
        FE::Var(m, _p) => {
            push_has(acc, m, l);
        },
        FE::Not(a) => {
            leaves_occur(*a, next, acc, l);
        },
        FE::Neg(a) => {
            leaves_occur(*a, next, acc, l);
        },
        FE::And(es) => {
            list_occurs(es, next, 0, acc, l);
        },
        FE::Or(es) => {
            list_occurs(es, next, 0, acc, l);
        },
        FE::Add(es) => {
            list_occurs(es, next, 0, acc, l);
        },
        FE::Mul(es) => {
            list_occurs(es, next, 0, acc, l);
        },
        FE::Ite(a, b, c) => {
            leaves_occur(*a, next, acc, l);
            leaves_occur(*b, next, fe_ids(*a, next, acc), l);
            leaves_occur(*c, next, fe_ids(*b, next, fe_ids(*a, next, acc)), l);
        },
        FE::Eq(a, b) => {
            leaves_occur(*a, next, acc, l);
            leaves_occur(*b, next, fe_ids(*a, next, acc), l);
        },
        FE::Lt(a, b) => {
            leaves_occur(*a, next, acc, l);
            leaves_occur(*b, next, fe_ids(*a, next, acc), l);
        },
        FE::Le(a, b) => {
            leaves_occur(*a, next, acc, l);
            leaves_occur(*b, next, fe_ids(*a, next, acc), l);
        },
        FE::Div(a, b) => {
            leaves_occur(*a, next, acc, l);
            leaves_occur(*b, next, fe_ids(*a, next, acc), l);
        },
        FE::IDiv(a, b) => {
            leaves_occur(*a, next, acc, l);
            leaves_occur(*b, next, fe_ids(*a, next, acc), l);
        },
        FE::Mod(a, b) => {
            leaves_occur(*a, next, acc, l);
            leaves_occur(*b, next, fe_ids(*a, next, acc), l);
        },
    }
}

proof fn list_occurs(es: Seq<FE>, next: bool, i: int, acc: Seq<LeafId>, l: LeafId)
    requires
        0 <= i <= es.len(),
    ensures
        fe_ids_from(es, next, i, acc).contains(l) == (acc.contains(l) || exists|j: int|
            i <= j < es.len() && occurs(#[trigger] es[j], l, next)),
        i == 0 ==> fe_ids_from(es, next, 0, acc).contains(l) == (acc.contains(l) || occurs_in(es, l, next)),
    decreases es, es.len() - i,
{
    reveal_with_fuel(fe_ids_from, 2);
    reveal_with_fuel(occurs_in, 2);
    if i < es.len() {
        leaves_occur(es[i], next, acc, l);
        list_occurs(es, next, i + 1, fe_ids(es[i], next, acc), l);
    }
}

/// The leaf occurs in the symbolic value.
pub open spec fn belongs(v: SV, l: LeafId) -> bool
    decreases v,
{
    match v {
        SV::Sym(e, _t) => occurs(e, l, false),
        SV::Tuple(vs) => exists|i: int| 0 <= i < vs.len() && belongs(#[trigger] vs[i], l),
        SV::Array(_t, vs) => exists|i: int| 0 <= i < vs.len() && belongs(#[trigger] vs[i], l),
        SV::Record(fs) => exists|i: int| 0 <= i < fs.len() && belongs((#[trigger] fs[i]).1, l),
        _ => false,
    }
}

/// The leaves that are listed of a symbolic value are those that occur in it.
pub proof fn leaves_belong(v: SV, acc: Seq<LeafId>, l: LeafId)
    ensures
        sv_ids(v, acc).contains(l) == (acc.contains(l) || belongs(v, l)),
    decreases v, 0int,
{
    reveal_with_fuel(sv_ids, 2);
    match v {
        SV::Sym(e, _t) => {
            leaves_occur(e, false, acc, l);
        },
        SV::Tuple(vs) => {
            parts_belong(vs, 0, acc, l);
        },
        SV::Array(_t, vs) => {
            parts_belong(vs, 0, acc, l);
        },
        SV::Record(fs) => {
            fields_belong(fs, 0, acc, l);
        },
        _ => {},
    }
}

/// The leaves that are listed of values are those that occur in one of them.
pub proof fn parts_belong(vs: Seq<SV>, i: int, acc: Seq<LeafId>, l: LeafId)
    requires
        0 <= i <= vs.len(),
    ensures
        sv_ids_from(vs, i, acc).contains(l) == (acc.contains(l) || exists|j: int|
            i <= j < vs.len() && belongs(#[trigger] vs[j], l)),
    decreases vs, vs.len() - i,
{
    reveal_with_fuel(sv_ids_from, 2);
    if i < vs.len() {
        leaves_belong(vs[i], acc, l);
        parts_belong(vs, i + 1, sv_ids(vs[i], acc), l);
    }
}

/// The leaves that are listed of fields are those that occur in one of them.
pub proof fn fields_belong(fs: Seq<(Seq<char>, SV)>, i: int, acc: Seq<LeafId>, l: LeafId)
    requires
        0 <= i <= fs.len(),
    ensures
        field_ids_from(fs, i, acc).contains(l) == (acc.contains(l) || exists|j: int|
            i <= j < fs.len() && belongs((#[trigger] fs[j]).1, l)),
    decreases fs, fs.len() - i,
{
    reveal_with_fuel(field_ids_from, 2);
    if i < fs.len() {
        leaves_belong(fs[i].1, acc, l);
        fields_belong(fs, i + 1, sv_ids(fs[i].1, acc), l);
    }
}

/// The leaf is one of a variable that is no input.
pub open spec fn is_owned(vars: VarsV, l: LeafId) -> bool {
    exists|i: int| 0 <= i < vars.len() && (#[trigger] vars[i]).1.class != VarClass::Input && belongs(vars[i].1.skel, l)
}

/// The module controls the leaves of its variables that are no inputs.
pub open spec fn owns(e: ElabV) -> bool {
    forall|l: LeafId| #[trigger] e.controlled.contains(l) == is_owned(e.vars, l)
}

proof fn var_owned(e: ElabV, name: Seq<char>, x: VarE)
    requires
        owns(e),
    ensures
        owns(with_var(e, name, x)),
{
    let r = with_var(e, name, x);
    assert forall|l: LeafId| #[trigger] r.controlled.contains(l) == is_owned(r.vars, l) by {
        leaves_belong(x.skel, e.controlled, l);
        assert(e.controlled.contains(l) == is_owned(e.vars, l));
        let n = e.vars.len() as int;
        assert(r.vars[n] == (name, x));
        if is_owned(e.vars, l) {
            let i = choose|i: int|
                0 <= i < e.vars.len() && (#[trigger] e.vars[i]).1.class != VarClass::Input && belongs(e.vars[i].1.skel, l);
            assert(r.vars[i] == e.vars[i]);
        }
        if is_owned(r.vars, l) {
            let i = choose|i: int|
                0 <= i < r.vars.len() && (#[trigger] r.vars[i]).1.class != VarClass::Input && belongs(r.vars[i].1.skel, l);
            if i < n {
                assert(r.vars[i] == e.vars[i]);
            }
        }
    }
}

proof fn names_owned(
    w: World,
    k: nat,
    at: nat,
    v: Seq<IdentV>,
    t: CT,
    class: VarClass,
    span: Span,
    amb: VarsV,
    e: ElabV,
    ls: Seq<LeafV>,
    i: int,
)
    requires
        0 <= i <= v.len(),
        owns(e),
        f_base_names(w, at, v, t, class, span, amb, e, ls, build(w, k), i) is Ok,
    ensures
        ({
            let r = f_base_names(w, at, v, t, class, span, amb, e, ls, build(w, k), i)->Ok_0.0;
            owns(r) && r == ElabV { vars: r.vars, controlled: r.controlled, ..e }
        }),
    decreases v.len() - i,
{
    reveal_with_fuel(f_base_names, 2);
    if i < v.len() {
        if field_place(e.vars, v[i].name, 0) is Some {
            names_owned(w, k, at, v, t, class, span, amb, e, ls, i + 1);
        } else {
            match ambient(amb, v[i].name) {
                Some(x) => {
                    let y = VarE { class, ..x };
                    var_owned(e, v[i].name, y);
                    names_owned(w, k, at, v, t, class, span, amb, with_var(e, v[i].name, y), ls, i + 1);
                },
                None => {
                    let (v1, ls1) = (build(w, k).alloc)(at, v[i].name, t, class, span, ls)->Ok_0;
                    let y = VarE { class, ctype: t, skel: v1 };
                    var_owned(e, v[i].name, y);
                    names_owned(w, k, at, v, t, class, span, amb, with_var(e, v[i].name, y), ls1, i + 1);
                },
            }
        }
    }
}

proof fn groups_owned(
    w: World,
    k: nat,
    at: nat,
    v: Seq<VarDeclV>,
    class: VarClass,
    lo: Scope,
    amb: VarsV,
    e: ElabV,
    ls: Seq<LeafV>,
    i: int,
)
    requires
        0 <= i <= v.len(),
        owns(e),
        f_base_groups(w, at, v, class, lo, amb, e, ls, build(w, k), i) is Ok,
    ensures
        ({
            let r = f_base_groups(w, at, v, class, lo, amb, e, ls, build(w, k), i)->Ok_0.0;
            owns(r) && r == ElabV { vars: r.vars, controlled: r.controlled, ..e }
        }),
    decreases v.len() - i,
{
    reveal_with_fuel(f_base_groups, 2);
    if i < v.len() {
        let t = (evaluation(w, DEPTH as nat).ctype)(at, v[i].ty, lo, Seq::empty())->Ok_0;
        names_owned(w, k, at, v[i].names, t, class, v[i].span, amb, e, ls, 0);
        let (e1, ls1) = f_base_names(w, at, v[i].names, t, class, v[i].span, amb, e, ls, build(w, k), 0)->Ok_0;
        groups_owned(w, k, at, v, class, lo, amb, e1, ls1, i + 1);
    }
}

/// The declared variables of a base module are owned, and nothing else is said of them.
pub proof fn vars_owned(
    w: World,
    k: nat,
    at: nat,
    v: Seq<BaseDeclV>,
    lo: Scope,
    amb: VarsV,
    e: ElabV,
    ls: Seq<LeafV>,
    i: int,
)
    requires
        0 <= i <= v.len(),
        owns(e),
        f_base_vars(w, at, v, lo, amb, e, ls, build(w, k), i) is Ok,
    ensures
        ({
            let r = f_base_vars(w, at, v, lo, amb, e, ls, build(w, k), i)->Ok_0.0;
            owns(r) && r == ElabV { vars: r.vars, controlled: r.controlled, ..e }
        }),
    decreases v.len() - i,
{
    reveal_with_fuel(f_base_vars, 2);
    if i < v.len() {
        match v[i] {
            BaseDeclV::Vars(c, ds) => {
                groups_owned(w, k, at, ds, c, lo, amb, e, ls, 0);
                let (e1, ls1) = f_base_groups(w, at, ds, c, lo, amb, e, ls, build(w, k), 0)->Ok_0;
                vars_owned(w, k, at, v, lo, amb, e1, ls1, i + 1);
            },
            _ => {
                vars_owned(w, k, at, v, lo, amb, e, ls, i + 1);
            },
        }
    }
}

proof fn names_kept(
    w: World,
    k: nat,
    at: nat,
    v: Seq<IdentV>,
    t: TypeV,
    span: Span,
    lo: Scope,
    e: ElabV,
    i: int,
)
    requires
        0 <= i <= v.len(),
        f_sub_names(w, at, v, t, span, lo, e, build(w, k), i) is Ok,
    ensures
        f_sub_names(w, at, v, t, span, lo, e, build(w, k), i)->Ok_0.vars == e.vars,
        f_sub_names(w, at, v, t, span, lo, e, build(w, k), i)->Ok_0.controlled == e.controlled,
    decreases v.len() - i,
{
    reveal_with_fuel(f_sub_names, 2);
    if i < v.len() {
        let p = field_place(e.vars, v[i].name, 0)->0;
        let c = (build(w, k).subtype)(at, t, e.vars[p as int].1.skel, span, lo)->Ok_0;
        names_kept(w, k, at, v, t, span, lo, with_constraint(e, c), i + 1);
    }
}

proof fn groups_kept(w: World, k: nat, at: nat, v: Seq<VarDeclV>, lo: Scope, e: ElabV, i: int)
    requires
        0 <= i <= v.len(),
        f_sub_groups(w, at, v, lo, e, build(w, k), i) is Ok,
    ensures
        f_sub_groups(w, at, v, lo, e, build(w, k), i)->Ok_0.vars == e.vars,
        f_sub_groups(w, at, v, lo, e, build(w, k), i)->Ok_0.controlled == e.controlled,
    decreases v.len() - i,
{
    reveal_with_fuel(f_sub_groups, 2);
    if i < v.len() {
        names_kept(w, k, at, v[i].names, v[i].ty, v[i].span, lo, e, 0);
        let e1 = f_sub_names(w, at, v[i].names, v[i].ty, v[i].span, lo, e, build(w, k), 0)->Ok_0;
        groups_kept(w, k, at, v, lo, e1, i + 1);
    }
}

proof fn vars_kept(w: World, k: nat, at: nat, v: Seq<BaseDeclV>, lo: Scope, e: ElabV, i: int)
    requires
        0 <= i <= v.len(),
        f_sub_vars(w, at, v, lo, e, build(w, k), i) is Ok,
    ensures
        f_sub_vars(w, at, v, lo, e, build(w, k), i)->Ok_0.vars == e.vars,
        f_sub_vars(w, at, v, lo, e, build(w, k), i)->Ok_0.controlled == e.controlled,
    decreases v.len() - i,
{
    reveal_with_fuel(f_sub_vars, 2);
    if i < v.len() {
        match v[i] {
            BaseDeclV::Vars(_c, ds) => {
                groups_kept(w, k, at, ds, lo, e, 0);
                let e1 = f_sub_groups(w, at, ds, lo, e, build(w, k), 0)->Ok_0;
                vars_kept(w, k, at, v, lo, e1, i + 1);
            },
            _ => {
                vars_kept(w, k, at, v, lo, e, i + 1);
            },
        }
    }
}

/// A base module controls the leaves of its variables that are no inputs, and no others.
pub proof fn control_law(w: World, k: nat, at: nat, x: ModuleV, lo: Scope, amb: VarsV, ls: Seq<LeafV>, r: Built)
    requires
        x.kind is Base,
        gives(w, k + 1, at, x, lo, amb, ls, r),
    ensures
        owns(r.0),
{
    build_rules(w, (k + 1) as nat);
    reveal(f_module_body);
    reveal(f_base);
    let g = build(w, k);
    let ds = x.kind->Base_0.decls;
    let e0 = crate::blocks::no_elab();
    assert(owns(e0));
    vars_owned(w, k, at, ds, lo, amb, e0, ls, 0);
    let (e1, ls1) = f_base_vars(w, at, ds, lo, amb, e0, ls, g, 0)->Ok_0;
    vars_kept(w, k, at, ds, lo, e1, 0);
    let env: Leaves = |i: LeafId, next: bool| Some(crate::value::Val::Bool(true));
    let e2 = f_sub_vars(w, at, ds, lo, e1, g, 0)->Ok_0;
    sections_say(w, k, at, ds, state_locals(lo, e2.vars, 0), ls1.len(), e2, 0, env);
}

/// A definition of a variable gives the leaves of the variable, and no others.
pub proof fn heads_law(w: World, k: nat, at: nat, d: DefinitionV, lo: Scope, acc: Seq<LeafId>, v: SV, l: LeafId)
    requires
        d is Simple,
        d->Simple_0.lhs.accesses.len() == 0,
        local(
            lo,
            if d->Simple_0.lhs.next {
                next_name(d->Simple_0.lhs.base.name)
            } else {
                d->Simple_0.lhs.base.name
            },
        ) == Some(v),
    ensures
        (build(w, k + 1).heads)(at, d, lo, acc) matches Ok(r) && r.contains(l) == (acc.contains(l) || belongs(v, l)),
{
    build_rules(w, (k + 1) as nat);
    reveal(f_heads_of);
    reveal(f_head_of);
    reveal(f_lhs);
    reveal_with_fuel(f_lhs_steps, 2);
    reveal(head_name);
    leaves_belong(v, acc, l);
}

/// One of the commands, from command `i` on, speaks of the next value of the leaf.
pub open spec fn some_gives(cs: Seq<Cmd>, i: int, l: LeafId) -> bool {
    exists|c: int| i <= c < cs.len() && occurs((#[trigger] cs[c]).constraint, l, true)
}

proof fn assigned_are(cs: Seq<Cmd>, i: int, acc: Seq<LeafId>, l: LeafId)
    requires
        0 <= i <= cs.len(),
    ensures
        assigned(cs, i, acc).contains(l) == (acc.contains(l) || some_gives(cs, i, l)),
    decreases cs.len() - i,
{
    if i < cs.len() {
        leaves_occur(cs[i].constraint, true, acc, l);
        assigned_are(cs, i + 1, fe_ids(cs[i].constraint, true, acc), l);
    }
}

/// The leaves that the other choices of a transition section give are those of whose next values one of their commands
/// speaks.
pub proof fn others_law(bs: Seq<Seq<Cmd>>, but: int, i: int, acc: Seq<LeafId>, l: LeafId)
    requires
        0 <= i <= bs.len(),
    ensures
        other_blocks(bs, but, i, acc).contains(l) == (acc.contains(l) || exists|j: int|
            i <= j < bs.len() && j != but && some_gives(#[trigger] bs[j], 0, l)),
    decreases bs.len() - i,
{
    if i < bs.len() {
        if i == but {
            others_law(bs, but, i + 1, acc, l);
        } else {
            assigned_are(bs[i], 0, acc, l);
            others_law(bs, but, i + 1, assigned(bs[i], 0, acc), l);
        }
    }
}

} // verus!
