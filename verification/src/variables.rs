//! What the declarations of state variables mean.

use crate::ast::{BaseDeclV, DefinitionV, IdentV, ModuleV, TypeKindV, TypeV, VarClass, VarDeclV};
use crate::blocks::{head_name, with_constraint};
use crate::calc::{field_place, local, next_name};
use crate::compositions::{begins, defined_in, gives, stays, Built};
use crate::ctype::{has, CT};
use crate::elaboration::{
    build, build_rules, f_alloc_elements, f_alloc_parts, f_alloc_record, f_alloc_tuple, f_allocated, f_assign,
    f_assign_among, f_base, f_base_vars, f_def_body, f_lhs, f_lhs_steps, f_module_body, f_simple, f_sub_groups,
    f_sub_names, f_sub_vars, f_subtype_of, DEPTH,
};
use crate::evaluations::{listing_law, value_of, values_of, Scope};
use crate::fexpr::{all_hold, and_meaning, holds, sem, sems, LeafId, Leaves};
use crate::judgement::{World, CEV};
use crate::meaning::{evaluation, evaluation_rules, v_bound, v_type_of};
use crate::ownership::{belongs, fields_belong, leaves_belong, occurs, owns, parts_belong, vars_owned};
use crate::preludes::listed_law;
use crate::sections::{hold_push, sections_begin, sections_define, sections_say, sections_stay, stated};
use crate::skel::{state_locals, sv_ids, ElabV, LeafV, VarsV};
use crate::span::Span;
use crate::sval::{mean, SetV, SV};
use crate::value::Val;
use vstd::prelude::*;

verus! {

/// A subrange is the type of the integers between its bounds, both of them among it.
pub proof fn subrange_law(w: World, k: nat, at: nat, x: TypeV, lo: Scope, busy: Seq<(nat, Seq<char>)>, a: int, b: int, v: Val)
    requires
        x.kind is Subrange,
        value_of(w, k, at, *x.kind->Subrange_0, lo) == Ok::<SV, CEV>(SV::Ground(Val::Num(crate::num::Q { n: a, d: 1 }))),
        value_of(w, k, at, *x.kind->Subrange_1, lo) == Ok::<SV, CEV>(SV::Ground(Val::Num(crate::num::Q { n: b, d: 1 }))),
        !(x.kind->Subrange_0.kind is Unbounded),
        !(x.kind->Subrange_1.kind is Unbounded),
    ensures
        (evaluation(w, k + 1).ctype)(at, x, lo, busy) matches Ok(t) && has(t, v) == (v matches Val::Num(q) && q.d == 1 && a
            <= q.n <= b),
{
    evaluation_rules(w, k + 1);
    reveal(v_type_of);
    reveal(v_bound);
    assert(has(CT::Range(a, b), v) == (v matches Val::Num(q) && q.d == 1 && a <= q.n <= b));
}

/// What the predicates of a type say of a value holds.
pub open spec fn type_holds(w: World, k: nat, at: nat, t: TypeV, v: SV, span: Span, lo: Scope, env: Leaves) -> bool {
    (build(w, k).subtype)(at, t, v, span, lo) matches Ok(c) && (c matches Some(f) ==> holds(sem(f, env)))
}

/// The predicates of a subtype hold of a value where its own does, with the value for its variable, and those of the
/// type that it is a subtype of.
pub proof fn subtype_law(w: World, k: nat, at: nat, t: TypeV, v: SV, span: Span, lo: Scope, env: Leaves)
    requires
        (build(w, k + 1).subtype)(at, t, v, span, lo) is Ok,
    ensures
        type_holds(w, k + 1, at, t, v, span, lo, env) == match t.kind {
            TypeKindV::Subtype(sp) => type_holds(w, k, at, sp.ty, v, span, lo, env) && (value_of(
                w,
                DEPTH as nat,
                at,
                sp.pred,
                lo.push((sp.var.name, v)),
            ) matches Ok(p) && holds(mean(p, env))),
            _ => true,
        },
{
    build_rules(w, k + 1);
    reveal(f_subtype_of);
    match t.kind {
        TypeKindV::Subtype(sp) => {
            let p = value_of(w, DEPTH as nat, at, sp.pred, lo.push((sp.var.name, v)))->Ok_0;
            let c = crate::operators::condition(p)->0;
            assert(sem(c, env) == mean(p, env));
            match (build(w, k).subtype)(at, sp.ty, v, span, lo) {
                Ok(Some(f)) => {
                    let es = seq![f, c];
                    and_meaning(es, env);
                    let o = sems(es, env);
                    assert(o.len() == 2 && o[0] == sem(f, env) && o[1] == sem(c, env));
                    if all_hold(o) {
                        assert(holds(o[0]) && holds(o[1]));
                    }
                },
                _ => {},
            }
        },
        _ => {},
    }
}

/// The first variable of a name has a value for which the predicates of the type hold.
pub open spec fn variable_holds(
    w: World,
    k: nat,
    at: nat,
    vars: VarsV,
    name: Seq<char>,
    t: TypeV,
    span: Span,
    lo: Scope,
    env: Leaves,
) -> bool {
    field_place(vars, name, 0) matches Some(p) && type_holds(w, k, at, t, vars[p as int].1.skel, span, lo, env)
}

/// The declared variables have values for which the predicates of their type hold.
pub open spec fn group_holds(
    w: World,
    k: nat,
    at: nat,
    vars: VarsV,
    d: VarDeclV,
    lo: Scope,
    env: Leaves,
) -> bool {
    forall|i: int|
        0 <= i < d.names.len() ==> variable_holds(w, k, at, vars, (#[trigger] d.names[i]).name, d.ty, d.span, lo, env)
}

/// All declared variables of a section have such values.
pub open spec fn groups_hold(
    w: World,
    k: nat,
    at: nat,
    vars: VarsV,
    ds: Seq<VarDeclV>,
    lo: Scope,
    env: Leaves,
) -> bool {
    forall|i: int| 0 <= i < ds.len() ==> group_holds(w, k, at, vars, #[trigger] ds[i], lo, env)
}

/// All declared variables have such values.
pub open spec fn variables_hold(
    w: World,
    k: nat,
    at: nat,
    vars: VarsV,
    v: Seq<BaseDeclV>,
    lo: Scope,
    env: Leaves,
) -> bool {
    forall|i: int| 0 <= i < v.len() && (#[trigger] v[i]) is Vars ==> groups_hold(w, k, at, vars, v[i]->Vars_1, lo, env)
}

proof fn names_say(
    w: World,
    k: nat,
    at: nat,
    v: Seq<IdentV>,
    t: TypeV,
    span: Span,
    lo: Scope,
    e: ElabV,
    i: int,
    env: Leaves,
)
    requires
        0 <= i <= v.len(),
        f_sub_names(w, at, v, t, span, lo, e, build(w, k), i) is Ok,
    ensures
        ({
            let r = f_sub_names(w, at, v, t, span, lo, e, build(w, k), i)->Ok_0;
            &&& r == ElabV { invariants: r.invariants, ..e }
            &&& stays(r, env) == (stays(e, env) && forall|j: int|
                i <= j < v.len() ==> variable_holds(w, k, at, e.vars, (#[trigger] v[j]).name, t, span, lo, env))
        }),
    decreases v.len() - i,
{
    reveal_with_fuel(f_sub_names, 2);
    if i < v.len() {
        let p = field_place(e.vars, v[i].name, 0)->0;
        let c = (build(w, k).subtype)(at, t, e.vars[p as int].1.skel, span, lo)->Ok_0;
        let e1 = with_constraint(e, c);
        match c {
            Some(f) => {
                hold_push(e.invariants, f, env);
            },
            None => {},
        }
        names_say(w, k, at, v, t, span, lo, e1, i + 1, env);
        assert(variable_holds(w, k, at, e.vars, v[i].name, t, span, lo, env) == (c matches Some(f) ==> holds(sem(f, env))));
    }
}

proof fn groups_say(w: World, k: nat, at: nat, v: Seq<VarDeclV>, lo: Scope, e: ElabV, i: int, env: Leaves)
    requires
        0 <= i <= v.len(),
        f_sub_groups(w, at, v, lo, e, build(w, k), i) is Ok,
    ensures
        ({
            let r = f_sub_groups(w, at, v, lo, e, build(w, k), i)->Ok_0;
            &&& r == ElabV { invariants: r.invariants, ..e }
            &&& stays(r, env) == (stays(e, env) && forall|j: int|
                i <= j < v.len() ==> group_holds(w, k, at, e.vars, #[trigger] v[j], lo, env))
        }),
    decreases v.len() - i,
{
    reveal_with_fuel(f_sub_groups, 2);
    if i < v.len() {
        let d = v[i];
        names_say(w, k, at, d.names, d.ty, d.span, lo, e, 0, env);
        let e1 = f_sub_names(w, at, d.names, d.ty, d.span, lo, e, build(w, k), 0)->Ok_0;
        groups_say(w, k, at, v, lo, e1, i + 1, env);
        assert(stays(e1, env) == (stays(e, env) && group_holds(w, k, at, e.vars, d, lo, env)));
    }
}

proof fn types_say(w: World, k: nat, at: nat, v: Seq<BaseDeclV>, lo: Scope, e: ElabV, i: int, env: Leaves)
    requires
        0 <= i <= v.len(),
        f_sub_vars(w, at, v, lo, e, build(w, k), i) is Ok,
    ensures
        ({
            let r = f_sub_vars(w, at, v, lo, e, build(w, k), i)->Ok_0;
            &&& r == ElabV { invariants: r.invariants, ..e }
            &&& stays(r, env) == (stays(e, env) && forall|j: int|
                i <= j < v.len() && (#[trigger] v[j]) is Vars ==> groups_hold(
                    w,
                    k,
                    at,
                    e.vars,
                    v[j]->Vars_1,
                    lo,
                    env,
                ))
        }),
    decreases v.len() - i,
{
    reveal_with_fuel(f_sub_vars, 2);
    if i < v.len() {
        match v[i] {
            BaseDeclV::Vars(_c, ds) => {
                groups_say(w, k, at, ds, lo, e, 0, env);
                let e1 = f_sub_groups(w, at, ds, lo, e, build(w, k), 0)->Ok_0;
                types_say(w, k, at, v, lo, e1, i + 1, env);
                assert(stays(e1, env) == (stays(e, env) && groups_hold(w, k, at, e.vars, ds, lo, env)));
            },
            _ => {
                types_say(w, k, at, v, lo, e, i + 1, env);
            },
        }
    }
}

/// A base module says of every state that each variable has a value for which the predicates of its type hold and what
/// its definitions say, and nothing else; of the first state what its initializations say; and of what definitions give
/// in a step what those of its transition sections say.
pub proof fn module_law(w: World, k: nat, at: nat, x: ModuleV, lo: Scope, amb: VarsV, ls: Seq<LeafV>, r: Built, env: Leaves)
    requires
        x.kind is Base,
        gives(w, k + 1, at, x, lo, amb, ls, r),
    ensures
        ({
            let ds = x.kind->Base_0.decls;
            let inner = state_locals(lo, r.0.vars, 0);
            &&& stays(r.0, env) == (variables_hold(w, k, at, r.0.vars, ds, lo, env) && sections_stay(
                w,
                k,
                at,
                ds,
                inner,
                0,
                env,
            ))
            &&& begins(r.0, env) == sections_begin(w, k, at, ds, inner, 0, env)
            &&& defined_in(r.0, env) == sections_define(w, k, at, ds, inner, 0, env)
        }),
{
    build_rules(w, k + 1);
    reveal(f_module_body);
    reveal(f_base);
    let g = build(w, k);
    let ds = x.kind->Base_0.decls;
    let e0 = crate::blocks::no_elab();
    assert(owns(e0));
    vars_owned(w, k, at, ds, lo, amb, e0, ls, 0);
    let (e1, ls1) = f_base_vars(w, at, ds, lo, amb, e0, ls, g, 0)->Ok_0;
    types_say(w, k, at, ds, lo, e1, 0, env);
    let e2 = f_sub_vars(w, at, ds, lo, e1, g, 0)->Ok_0;
    sections_say(w, k, at, ds, state_locals(lo, e2.vars, 0), ls1.len(), e2, 0, env);
    assert(stays(e1, env) && begins(e2, env) && defined_in(e2, env));
}

/// The leaves of a value are those from `a` up to `b`, which is not among them.
pub open spec fn spans(v: SV, a: nat, b: nat) -> bool {
    forall|l: LeafId| #[trigger] belongs(v, l) == (a <= l < b)
}

/// The leaves are those that there were, and new ones of the class.
pub open spec fn extends(more: Seq<LeafV>, ls: Seq<LeafV>, class: VarClass) -> bool {
    &&& ls.len() <= more.len() <= u32::MAX
    &&& forall|i: int| 0 <= i < ls.len() ==> #[trigger] more[i] == ls[i]
    &&& forall|i: int| ls.len() <= i < more.len() ==> (#[trigger] more[i]).2 == class
}

/// A state variable gets leaves of its own: those that it has are the new ones, and each is in it.
pub proof fn fresh_law(w: World, k: nat, at: nat, path: Seq<char>, t: CT, class: VarClass, span: Span, ls: Seq<LeafV>)
    requires
        (build(w, k).alloc)(at, path, t, class, span, ls) is Ok,
        ls.len() <= u32::MAX,
    ensures
        ({
            let (v, more) = (build(w, k).alloc)(at, path, t, class, span, ls)->Ok_0;
            extends(more, ls, class) && spans(v, ls.len(), more.len())
        }),
    decreases k, 0nat, 0int,
{
    build_rules(w, k);
    if k > 0 {
        reveal(f_allocated);
        reveal(f_alloc_parts);
        let m = (k - 1) as nat;
        let (v, more) = (build(w, k).alloc)(at, path, t, class, span, ls)->Ok_0;
        let none = Seq::<SV>::empty();
        if v is Sym {
            reveal_with_fuel(occurs, 2);
            assert forall|l: LeafId| #[trigger] belongs(v, l) == (ls.len() <= l < more.len()) by {}
        } else {
            match t {
                CT::Tuple(ts) => {
                    tuple_fresh(w, m, at, path, ts, class, span, ls, none, ls, 0);
                },
                CT::Record(fs) => {
                    record_fresh(w, m, at, path, fs, class, span, ls, Seq::empty(), ls, 0);
                },
                CT::Maps(_f, i1, e1) => {
                    let vals = crate::ctype::values(*i1)->0;
                    elements_fresh(w, m, at, path, vals, *i1, *e1, class, span, ls, none, ls, 0);
                },
                _ => {},
            }
        }
    }
}

/// The leaf occurs in one of the values.
pub open spec fn some_part(vs: Seq<SV>, l: LeafId) -> bool {
    exists|i: int| 0 <= i < vs.len() && belongs(#[trigger] vs[i], l)
}

/// The leaves of the values are those from `a` up to `b`, which is not among them.
pub open spec fn span_all(vs: Seq<SV>, a: nat, b: nat) -> bool {
    forall|l: LeafId| #[trigger] some_part(vs, l) == (a <= l < b)
}

proof fn span_push(vs: Seq<SV>, v: SV, a: nat, b: nat, c: nat)
    requires
        a <= b <= c,
        span_all(vs, a, b),
        spans(v, b, c),
    ensures
        span_all(vs.push(v), a, c),
{
    let us = vs.push(v);
    assert forall|l: LeafId| #[trigger] some_part(us, l) == (a <= l < c) by {
        assert(some_part(vs, l) == (a <= l < b));
        assert(us[vs.len() as int] == v);
        assert(belongs(v, l) == (b <= l < c));
        if some_part(vs, l) {
            let i = choose|i: int| 0 <= i < vs.len() && belongs(#[trigger] vs[i], l);
            assert(belongs(us[i], l));
        }
        if belongs(v, l) {
            assert(belongs(us[vs.len() as int], l));
        }
        if some_part(us, l) {
            let i = choose|i: int| 0 <= i < us.len() && belongs(#[trigger] us[i], l);
            if i < vs.len() {
                assert(belongs(vs[i], l));
            }
        }
    }
}

proof fn part_of(vs: Seq<SV>, it: CT, l: LeafId)
    ensures
        belongs(SV::Tuple(vs), l) == some_part(vs, l),
        belongs(SV::Array(it, vs), l) == some_part(vs, l),
{
    let none = Seq::<LeafId>::empty();
    leaves_belong(SV::Tuple(vs), none, l);
    leaves_belong(SV::Array(it, vs), none, l);
    parts_belong(vs, 0, none, l);
    reveal_with_fuel(sv_ids, 2);
}

proof fn field_of(fs: Seq<(Seq<char>, SV)>, vs: Seq<SV>, l: LeafId)
    requires
        vs == Seq::new(fs.len(), |j: int| fs[j].1),
    ensures
        belongs(SV::Record(fs), l) == some_part(vs, l),
{
    let none = Seq::<LeafId>::empty();
    leaves_belong(SV::Record(fs), none, l);
    fields_belong(fs, 0, none, l);
    reveal_with_fuel(sv_ids, 2);
    if some_part(vs, l) {
        let i = choose|i: int| 0 <= i < vs.len() && belongs(#[trigger] vs[i], l);
        assert(belongs(fs[i].1, l));
    }
    if exists|j: int| 0 <= j < fs.len() && belongs((#[trigger] fs[j]).1, l) {
        let j = choose|j: int| 0 <= j < fs.len() && belongs((#[trigger] fs[j]).1, l);
        assert(belongs(vs[j], l));
    }
}

proof fn tuple_fresh(
    w: World,
    k: nat,
    at: nat,
    path: Seq<char>,
    v: Seq<CT>,
    class: VarClass,
    span: Span,
    ls0: Seq<LeafV>,
    acc: Seq<SV>,
    ls: Seq<LeafV>,
    i: int,
)
    requires
        0 <= i <= v.len(),
        f_alloc_tuple(w, at, path, v, class, span, acc, ls, build(w, k), i) is Ok,
        extends(ls, ls0, class),
        span_all(acc, ls0.len(), ls.len()),
    ensures
        ({
            let r = f_alloc_tuple(w, at, path, v, class, span, acc, ls, build(w, k), i)->Ok_0;
            extends(r.1, ls0, class) && spans(SV::Tuple(r.0), ls0.len(), r.1.len())
        }),
    decreases k, 1nat, v.len() - i,
{
    reveal_with_fuel(f_alloc_tuple, 2);
    if i < v.len() {
        let name = crate::skel::numbered(path, i);
        fresh_law(w, k, at, name, v[i], class, span, ls);
        let (v1, ls1) = (build(w, k).alloc)(at, name, v[i], class, span, ls)->Ok_0;
        span_push(acc, v1, ls0.len(), ls.len(), ls1.len());
        tuple_fresh(w, k, at, path, v, class, span, ls0, acc.push(v1), ls1, i + 1);
    } else {
        assert forall|l: LeafId| #[trigger] belongs(SV::Tuple(acc), l) == (ls0.len() <= l < ls.len()) by {
            part_of(acc, CT::Bool, l);
        }
    }
}

proof fn record_fresh(
    w: World,
    k: nat,
    at: nat,
    path: Seq<char>,
    v: Seq<(Seq<char>, CT)>,
    class: VarClass,
    span: Span,
    ls0: Seq<LeafV>,
    acc: Seq<(Seq<char>, SV)>,
    ls: Seq<LeafV>,
    i: int,
)
    requires
        0 <= i <= v.len(),
        f_alloc_record(w, at, path, v, class, span, acc, ls, build(w, k), i) is Ok,
        extends(ls, ls0, class),
        span_all(Seq::new(acc.len(), |j: int| acc[j].1), ls0.len(), ls.len()),
    ensures
        ({
            let r = f_alloc_record(w, at, path, v, class, span, acc, ls, build(w, k), i)->Ok_0;
            extends(r.1, ls0, class) && spans(SV::Record(r.0), ls0.len(), r.1.len())
        }),
    decreases k, 1nat, v.len() - i,
{
    reveal_with_fuel(f_alloc_record, 2);
    let parts = Seq::new(acc.len(), |j: int| acc[j].1);
    if i < v.len() {
        let name = crate::skel::dotted(path, v[i].0);
        fresh_law(w, k, at, name, v[i].1, class, span, ls);
        let (v1, ls1) = (build(w, k).alloc)(at, name, v[i].1, class, span, ls)->Ok_0;
        span_push(parts, v1, ls0.len(), ls.len(), ls1.len());
        let next = acc.push((v[i].0, v1));
        assert(Seq::new(next.len(), |j: int| next[j].1) =~= parts.push(v1));
        record_fresh(w, k, at, path, v, class, span, ls0, next, ls1, i + 1);
    } else {
        assert forall|l: LeafId| #[trigger] belongs(SV::Record(acc), l) == (ls0.len() <= l < ls.len()) by {
            field_of(acc, parts, l);
        }
    }
}

proof fn elements_fresh(
    w: World,
    k: nat,
    at: nat,
    path: Seq<char>,
    v: Seq<Val>,
    it: CT,
    et: CT,
    class: VarClass,
    span: Span,
    ls0: Seq<LeafV>,
    acc: Seq<SV>,
    ls: Seq<LeafV>,
    i: int,
)
    requires
        0 <= i <= v.len(),
        f_alloc_elements(w, at, path, v, it, et, class, span, acc, ls, build(w, k), i) is Ok,
        extends(ls, ls0, class),
        span_all(acc, ls0.len(), ls.len()),
    ensures
        ({
            let r = f_alloc_elements(w, at, path, v, it, et, class, span, acc, ls, build(w, k), i)->Ok_0;
            extends(r.1, ls0, class) && spans(SV::Array(it, r.0), ls0.len(), r.1.len())
        }),
    decreases k, 1nat, v.len() - i,
{
    reveal_with_fuel(f_alloc_elements, 2);
    if i < v.len() {
        let name = crate::skel::indexed(path, it, v[i]);
        fresh_law(w, k, at, name, et, class, span, ls);
        let (v1, ls1) = (build(w, k).alloc)(at, name, et, class, span, ls)->Ok_0;
        span_push(acc, v1, ls0.len(), ls.len(), ls1.len());
        elements_fresh(w, k, at, path, v, it, et, class, span, ls0, acc.push(v1), ls1, i + 1);
    } else {
        assert forall|l: LeafId| #[trigger] belongs(SV::Array(it, acc), l) == (ls0.len() <= l < ls.len()) by {
            part_of(acc, it, l);
        }
    }
}

/// A selection of the value of a variable from listed values says that the variable has one of them.
pub proof fn selection_law(
    w: World,
    k: nat,
    at: nat,
    d: DefinitionV,
    next: bool,
    lo: Scope,
    env: Leaves,
    l: SV,
    vs: Seq<SV>,
)
    requires
        d is Simple,
        d->Simple_0.lhs.accesses.len() == 0,
        local(
            lo,
            if d->Simple_0.lhs.next {
                next_name(d->Simple_0.lhs.base.name)
            } else {
                d->Simple_0.lhs.base.name
            },
        ) == Some(l),
        d->Simple_0.rhs matches crate::ast::RhsV::Selection(e) && (e.kind matches crate::ast::ExprKindV::SetList(es)
            && values_of(w, (DEPTH - 1) as nat, at, es, lo, vs)),
        (build(w, k + 1).def)(at, d, next, lo) is Ok,
        mean(l, env) is Some,
        forall|i: int| 0 <= i < vs.len() ==> mean(#[trigger] vs[i], env) is Some,
    ensures
        stated(w, k + 1, at, d, next, lo, env) == exists|i: int|
            0 <= i < vs.len() && mean(#[trigger] vs[i], env) == mean(l, env),
{
    build_rules(w, k + 1);
    reveal(f_def_body);
    reveal(f_simple);
    reveal(f_lhs);
    reveal_with_fuel(f_lhs_steps, 2);
    reveal(f_assign);
    reveal(f_assign_among);
    reveal(head_name);
    reveal(crate::ast::rhs_value);
    let s = d->Simple_0;
    let e = s.rhs->Selection_0;
    listing_law(w, (DEPTH - 1) as nat, at, e, lo, vs);
    let g = evaluation(w, DEPTH as nat);
    listed_law(w, at, vs, l, s.span, g, env);
    let z = crate::meaning::v_apply(w, at, SV::Among(SetV::List(vs)), seq![l], s.span, g)->Ok_0;
    let c = crate::operators::condition(z)->0;
    assert(sem(c, env) == mean(z, env));
}

} // verus!
