//! What is accepted is well typed.

use crate::ast::{
    AccessV, AssertionExprV, BaseDeclV, BinOp, DeclV, DefOrCommandV, DefinitionV, ExprKindV, ExprV, LetDeclV,
    ModuleKindV, ModuleV, RhsV, SimpleDefinitionV, SomeCommandV, TypeV, UnOp, VarClass, VarDeclV,
};
use crate::env::{field_type, named, same_types, scope_type, state_binds, var_at, EntryV, ScopeV, VarV};
use crate::judgement::{
    c_access_step, c_accessed, c_agreeing, c_agreeing_with, c_arguments, c_assertion, c_assigned, c_base, c_binary,
    c_cmd_body, c_cmds, c_const_value, c_decl, c_declare, c_def_body, c_defs, c_elements, c_exprs, c_guard,
    c_guarded, c_infer, c_infer_binder, c_infer_part, c_infer_rest, c_infer_set, c_infer_use, c_items, c_lets,
    c_lookup, c_module_args, c_module_kind, c_name_type, c_predicate, c_sections, c_simple, judge, judge_rules,
    range_at, World, CEV,
};
use crate::types::{agrees, agrees_symmetric, ST};
use vstd::prelude::*;

verus! {

/// The expression has the type in a scope.
pub open spec fn is_of(w: World, n: nat, e: ExprV, sc: ScopeV, t: ST) -> bool {
    (judge(w, n).expr)(e, sc) == Ok::<ST, CEV>(t)
}

/// The expression has a type that is compatible with the given one.
pub open spec fn suits(w: World, n: nat, e: ExprV, sc: ScopeV, t: ST) -> bool {
    exists|s: ST| #[trigger] is_of(w, n, e, sc, s) && agrees(s, t)
}

/// The type expression stands for the type in a scope.
pub open spec fn stands_for(w: World, n: nat, x: TypeV, sc: ScopeV, t: ST) -> bool {
    (judge(w, n).ty)(x, sc) == Ok::<ST, CEV>(t)
}

/// Two types that are not open are compatible only where they are of one kind: truth values, numbers, the same named
/// type, maps of compatible index and element types, tuples and records of compatible parts, or states.
pub proof fn compatible_law(a: ST, b: ST)
    requires
        !(a is Any),
        !(b is Any),
        agrees(a, b),
    ensures
        match a {
            ST::Bool => b is Bool,
            ST::Number => b is Number,
            ST::Scalar(x) => b == ST::Scalar(x),
            ST::Datatype(x) => b == ST::Datatype(x),
            ST::Uninterp(x) => b == ST::Uninterp(x),
            ST::State => b is State,
            ST::Array(i, e) => match b {
                ST::Array(j, f) => agrees(*i, *j) && agrees(*e, *f),
                ST::Fun(j, f) => agrees(*i, *j) && agrees(*e, *f),
                _ => false,
            },
            ST::Fun(i, e) => match b {
                ST::Array(j, f) => agrees(*i, *j) && agrees(*e, *f),
                ST::Fun(j, f) => agrees(*i, *j) && agrees(*e, *f),
                _ => false,
            },
            ST::Tuple(x) => b matches ST::Tuple(y) && x.len() == y.len() && forall|k: int|
                0 <= k < x.len() ==> agrees(#[trigger] x[k], y[k]),
            ST::Record(x) => b matches ST::Record(y) && x.len() == y.len() && forall|k: int|
                0 <= k < x.len() ==> (#[trigger] x[k]).0 == y[k].0 && agrees(x[k].1, y[k].1),
            ST::Any => true,
        },
{
    match (a, b) {
        (ST::Tuple(x), ST::Tuple(y)) => {
            parts_agree(x, y, 0);
        },
        (ST::Record(x), ST::Record(y)) => {
            fields_agree(x, y, 0);
        },
        _ => {},
    }
}

proof fn parts_agree(x: Seq<ST>, y: Seq<ST>, i: int)
    requires
        0 <= i,
        crate::types::agree_from(x, y, i),
    ensures
        x.len() == y.len(),
        forall|k: int| i <= k < x.len() ==> agrees(#[trigger] x[k], y[k]),
    decreases x.len() - i,
{
    if i < x.len() {
        parts_agree(x, y, i + 1);
    }
}

proof fn fields_agree(x: Seq<(Seq<char>, ST)>, y: Seq<(Seq<char>, ST)>, i: int)
    requires
        0 <= i,
        crate::types::agree_fields_from(x, y, i),
    ensures
        x.len() == y.len(),
        forall|k: int| i <= k < x.len() ==> (#[trigger] x[k]).0 == y[k].0 && agrees(x[k].1, y[k].1),
    decreases x.len() - i,
{
    if i < x.len() {
        fields_agree(x, y, i + 1);
    }
}

/// The scope that the declarations open, and the types of the declared variables.
pub open spec fn opened(w: World, n: nat, ds: Seq<VarDeclV>, sc: ScopeV) -> Option<(ScopeV, Seq<ST>)>
    decreases ds.len(),
{
    if ds.len() == 0 {
        Some((sc, Seq::empty()))
    } else {
        match opened(w, n, ds.drop_last(), sc) {
            Some((s, ts)) => match (judge(w, n).ty)(ds.last().ty, s) {
                Ok(t) => Some(
                    (
                        s + Seq::new(ds.last().names.len(), |i: int| (ds.last().names[i].name, t, false)),
                        ts + Seq::new(ds.last().names.len(), |i: int| t),
                    ),
                ),
                Err(_) => None,
            },
            None => None,
        }
    }
}

proof fn declare_opens(w: World, n: nat, ds: Seq<VarDeclV>, sc0: ScopeV, sc: ScopeV, acc: Seq<ST>, i: int)
    requires
        0 <= i <= ds.len(),
        opened(w, n, ds.take(i), sc0) == Some((sc, acc)),
    ensures
        match c_declare(w, ds, acc, sc, judge(w, n), i) {
            Ok(r) => opened(w, n, ds, sc0) == Some(r),
            Err(_) => opened(w, n, ds, sc0) is None,
        },
    decreases ds.len() - i,
{
    reveal_with_fuel(c_declare, 2);
    if i < ds.len() {
        let d = ds.take(i + 1);
        assert(d.drop_last() =~= ds.take(i));
        assert(d.last() == ds[i]);
        match (judge(w, n).ty)(ds[i].ty, sc) {
            Ok(t) => {
                let names = ds[i].names;
                assert(named(names, t, false) =~= Seq::new(names.len(), |j: int| (names[j].name, t, false)));
                assert(same_types(names.len(), t) =~= Seq::new(names.len(), |j: int| t));
                declare_opens(w, n, ds, sc0, sc + named(names, t, false), acc + same_types(names.len(), t), i + 1);
            },
            Err(_) => {
                never_opened(w, n, ds, sc0, i + 1);
            },
        }
    } else {
        assert(ds.take(i) =~= ds);
    }
}

proof fn never_opened(w: World, n: nat, ds: Seq<VarDeclV>, sc0: ScopeV, i: int)
    requires
        0 <= i <= ds.len(),
        opened(w, n, ds.take(i), sc0) is None,
    ensures
        opened(w, n, ds, sc0) is None,
    decreases ds.len() - i,
{
    if i < ds.len() {
        let d = ds.take(i + 1);
        assert(d.drop_last() =~= ds.take(i));
        never_opened(w, n, ds, sc0, i + 1);
    } else {
        assert(ds.take(i) =~= ds);
    }
}

/// The scope that local declarations open; the value of each has the declared type.
pub open spec fn let_opened(w: World, n: nat, ds: Seq<LetDeclV>, sc: ScopeV) -> Option<ScopeV>
    decreases ds.len(),
{
    if ds.len() == 0 {
        Some(sc)
    } else {
        match let_opened(w, n, ds.drop_last(), sc) {
            Some(s) => match (judge(w, n).ty)(ds.last().ty, s) {
                Ok(t) => if suits(w, n, ds.last().value, s, t) {
                    Some(s.push((ds.last().name.name, t, false)))
                } else {
                    None
                },
                Err(_) => None,
            },
            None => None,
        }
    }
}

proof fn lets_open(w: World, n: nat, ds: Seq<LetDeclV>, sc0: ScopeV, sc: ScopeV, i: int)
    requires
        0 <= i <= ds.len(),
        let_opened(w, n, ds.take(i), sc0) == Some(sc),
    ensures
        match c_lets(w, ds, sc, judge(w, n), i) {
            Ok(r) => let_opened(w, n, ds, sc0) == Some(r),
            Err(_) => let_opened(w, n, ds, sc0) is None,
        },
    decreases ds.len() - i,
{
    reveal_with_fuel(c_lets, 2);
    if i < ds.len() {
        let d = ds.take(i + 1);
        assert(d.drop_last() =~= ds.take(i));
        assert(d.last() == ds[i]);
        match (judge(w, n).ty)(ds[i].ty, sc) {
            Ok(t) => {
                suits_required(w, n, ds[i].value, sc, t);
                if suits(w, n, ds[i].value, sc, t) {
                    lets_open(w, n, ds, sc0, sc.push((ds[i].name.name, t, false)), i + 1);
                } else {
                    never_let(w, n, ds, sc0, i + 1);
                }
            },
            Err(_) => {
                never_let(w, n, ds, sc0, i + 1);
            },
        }
    } else {
        assert(ds.take(i) =~= ds);
    }
}

proof fn never_let(w: World, n: nat, ds: Seq<LetDeclV>, sc0: ScopeV, i: int)
    requires
        0 <= i <= ds.len(),
        let_opened(w, n, ds.take(i), sc0) is None,
    ensures
        let_opened(w, n, ds, sc0) is None,
    decreases ds.len() - i,
{
    if i < ds.len() {
        let d = ds.take(i + 1);
        assert(d.drop_last() =~= ds.take(i));
        never_let(w, n, ds, sc0, i + 1);
    } else {
        assert(ds.take(i) =~= ds);
    }
}

proof fn suits_required(w: World, n: nat, e: ExprV, sc: ScopeV, t: ST)
    ensures
        suits(w, n, e, sc, t) == match (judge(w, n).expr)(e, sc) {
            Ok(s) => agrees(s, t),
            Err(_) => false,
        },
{
    match (judge(w, n).expr)(e, sc) {
        Ok(s) => {
            if agrees(s, t) {
                assert(is_of(w, n, e, sc, s));
            }
        },
        Err(_) => {},
    }
}

/// The expressions have the types, one by one.
pub open spec fn all_of(w: World, n: nat, es: Seq<ExprV>, sc: ScopeV, ts: Seq<ST>) -> bool {
    es.len() == ts.len() && forall|i: int| 0 <= i < es.len() ==> is_of(w, n, #[trigger] es[i], sc, ts[i])
}

proof fn exprs_all(w: World, n: nat, es: Seq<ExprV>, acc: Seq<ST>, sc: ScopeV, i: int)
    requires
        0 <= i <= es.len(),
        acc.len() == i,
        forall|j: int| 0 <= j < i ==> is_of(w, n, #[trigger] es[j], sc, acc[j]),
    ensures
        match c_exprs(w, es, acc, sc, judge(w, n), i) {
            Ok(ts) => all_of(w, n, es, sc, ts),
            Err(_) => exists|j: int| 0 <= j < es.len() && (judge(w, n).expr)(#[trigger] es[j], sc) is Err,
        },
    decreases es.len() - i,
{
    reveal_with_fuel(c_exprs, 2);
    if i < es.len() {
        match (judge(w, n).expr)(es[i], sc) {
            Ok(t) => {
                exprs_all(w, n, es, acc.push(t), sc, i + 1);
            },
            Err(_) => {},
        }
    }
}

/// Several types as one: that of the only one, or the tuple.
pub open spec fn taken_together(ts: Seq<ST>) -> ST {
    if ts.len() == 1 {
        ts[0]
    } else {
        ST::Tuple(ts)
    }
}

/// The arguments are of a type together.
pub open spec fn arguments_of(w: World, n: nat, es: Seq<ExprV>, sc: ScopeV, t: ST) -> bool {
    exists|ts: Seq<ST>| #[trigger] all_of(w, n, es, sc, ts) && t == taken_together(ts)
}

proof fn arguments_typed(w: World, n: nat, es: Seq<ExprV>, sc: ScopeV)
    ensures
        match c_arguments(w, es, sc, judge(w, n)) {
            Ok(t) => arguments_of(w, n, es, sc, t) && forall|s: ST| #[trigger] arguments_of(w, n, es, sc, s) ==> s == t,
            Err(_) => forall|s: ST| !#[trigger] arguments_of(w, n, es, sc, s),
        },
{
    reveal(c_arguments);
    exprs_all(w, n, es, Seq::empty(), sc, 0);
    match c_exprs(w, es, Seq::empty(), sc, judge(w, n), 0) {
        Ok(ts) => {
            assert forall|s: ST| #[trigger] arguments_of(w, n, es, sc, s) implies s == taken_together(ts) by {
                let us = choose|us: Seq<ST>| #[trigger] all_of(w, n, es, sc, us) && s == taken_together(us);
                assert(us =~= ts) by {
                    assert forall|i: int| 0 <= i < us.len() implies us[i] == ts[i] by {
                        assert(is_of(w, n, es[i], sc, us[i]));
                        assert(is_of(w, n, es[i], sc, ts[i]));
                    }
                }
            }
        },
        Err(_) => {
            assert forall|s: ST| !#[trigger] arguments_of(w, n, es, sc, s) by {
                if arguments_of(w, n, es, sc, s) {
                    let us = choose|us: Seq<ST>| #[trigger] all_of(w, n, es, sc, us) && s == taken_together(us);
                    let j = choose|j: int| 0 <= j < es.len() && (judge(w, n).expr)(#[trigger] es[j], sc) is Err;
                    assert(is_of(w, n, es[j], sc, us[j]));
                }
            }
        },
    }
}

/// The access leads from values of one type to parts of the other.
pub open spec fn leads(w: World, n: nat, a: AccessV, sc: ScopeV, s: ST, t: ST) -> bool {
    if s is Any {
        t is Any
    } else {
        match a {
            AccessV::Array(j) => match s {
                ST::Array(d, r) => suits(w, n, j, sc, *d) && t == *r,
                ST::Fun(d, r) => suits(w, n, j, sc, *d) && t == *r,
                _ => false,
            },
            AccessV::Args(es) => match s {
                ST::Fun(d, r) => t == *r && exists|u: ST| #[trigger] arguments_of(w, n, es, sc, u) && agrees(u, *d),
                _ => false,
            },
            AccessV::Record(f) => s matches ST::Record(fs) && exists|i: int| #[trigger] first_field(fs, f.name, i) && t
                == fs[i].1,
            AccessV::Tuple(j) => s matches ST::Tuple(ts) && 1 <= j <= ts.len() && t == ts[j - 1],
        }
    }
}

/// Number `i` is the first field of the name.
pub open spec fn first_field(fs: Seq<(Seq<char>, ST)>, name: Seq<char>, i: int) -> bool {
    0 <= i < fs.len() && fs[i].0 == name && forall|j: int| 0 <= j < i ==> (#[trigger] fs[j]).0 != name
}

proof fn field_first(fs: Seq<(Seq<char>, ST)>, name: Seq<char>, i: int)
    requires
        0 <= i <= fs.len(),
        forall|j: int| 0 <= j < i ==> (#[trigger] fs[j]).0 != name,
    ensures
        match field_type(fs, name, i) {
            Some(t) => exists|k: int| #[trigger] first_field(fs, name, k) && t == fs[k].1,
            None => forall|k: int| !#[trigger] first_field(fs, name, k),
        },
    decreases fs.len() - i,
{
    if i < fs.len() {
        if fs[i].0 == name {
            assert(first_field(fs, name, i));
        } else {
            field_first(fs, name, i + 1);
        }
    }
}

proof fn access_leads(w: World, n: nat, a: AccessV, sc: ScopeV, s: ST, span: crate::span::Span, t: ST)
    ensures
        leads(w, n, a, sc, s, t) == (c_access_step(w, a, s, span, sc, judge(w, n)) == Ok::<ST, CEV>(t)),
{
    reveal(c_access_step);
    if !(s is Any) {
        match a {
            AccessV::Array(j) => {
                match s {
                    ST::Array(d, r) => {
                        suits_required(w, n, j, sc, *d);
                    },
                    ST::Fun(d, r) => {
                        suits_required(w, n, j, sc, *d);
                    },
                    _ => {},
                }
            },
            AccessV::Args(es) => {
                arguments_typed(w, n, es, sc);
            },
            AccessV::Record(f) => {
                match s {
                    ST::Record(fs) => {
                        field_first(fs, f.name, 0);
                        only_first(fs, f.name);
                    },
                    _ => {},
                }
            },
            AccessV::Tuple(j) => {},
        }
    }
}

proof fn only_first(fs: Seq<(Seq<char>, ST)>, name: Seq<char>)
    ensures
        forall|i: int, j: int| #[trigger] first_field(fs, name, i) && #[trigger] first_field(fs, name, j) ==> i == j,
{
}

/// The accesses lead from values of one type to parts of the other.
pub open spec fn lead(w: World, n: nat, v: Seq<AccessV>, sc: ScopeV, s: ST, t: ST) -> bool
    decreases v.len(),
{
    if v.len() == 0 {
        t == s
    } else {
        exists|u: ST| lead(w, n, v.drop_last(), sc, s, u) && #[trigger] leads(w, n, v.last(), sc, u, t)
    }
}

proof fn accesses_lead(w: World, n: nat, v: Seq<AccessV>, sc: ScopeV, s: ST, u: ST, span: crate::span::Span, i: int)
    requires
        0 <= i <= v.len(),
        lead(w, n, v.take(i), sc, s, u),
    ensures
        c_accessed(w, v, u, span, sc, judge(w, n), i) matches Ok(t) ==> lead(w, n, v, sc, s, t),
    decreases v.len() - i,
{
    reveal_with_fuel(c_accessed, 2);
    if i < v.len() {
        match c_access_step(w, v[i], u, span, sc, judge(w, n)) {
            Ok(t) => {
                access_leads(w, n, v[i], sc, u, span, t);
                let d = v.take(i + 1);
                assert(d.drop_last() =~= v.take(i));
                assert(d.last() == v[i]);
                assert(lead(w, n, d, sc, s, t));
                accesses_lead(w, n, v, sc, s, t, span, i + 1);
            },
            Err(_) => {},
        }
    } else {
        assert(v.take(i) =~= v);
    }
}

/// The kind of operator: one of truth values, an equation, one of the order of numbers, or one of numbers.
pub open spec fn operands(op: BinOp, s: ST, u: ST, t: ST) -> bool {
    match op {
        BinOp::And | BinOp::Or | BinOp::Xor | BinOp::Implies | BinOp::Iff => agrees(s, ST::Bool) && agrees(u, ST::Bool)
            && t is Bool,
        BinOp::Eq | BinOp::Neq => agrees(s, u) && t is Bool,
        BinOp::Lt | BinOp::Le | BinOp::Gt | BinOp::Ge => agrees(s, ST::Number) && agrees(u, ST::Number) && t is Bool,
        BinOp::Plus | BinOp::Minus | BinOp::Mult | BinOp::Div | BinOp::IDiv | BinOp::Mod => agrees(s, ST::Number)
            && agrees(u, ST::Number) && t is Number,
    }
}

/// The type of an expression by the rule of its kind, from the types of its parts.
pub open spec fn has_type(w: World, n: nat, x: ExprV, sc: ScopeV, t: ST) -> bool {
    match x.kind {
        ExprKindV::Numeral(_) => t is Number,
        ExprKindV::Float { numer: _, denom: _ } => t is Number,
        ExprKindV::Unbounded => t is Number,
        ExprKindV::Next(id) => scope_type(sc, id.name, true) == Some(t),
        ExprKindV::Name(m) => match scope_type(sc, m.id.name, false) {
            Some(s) if m.ctx is None => t == s,
            _ => exists|id: nat, v: Option<ExprV>| #[trigger]
                (judge(w, n + 1).name)(m, sc) == Ok::<(nat, EntryV), CEV>((id, EntryV::Const(t, v))),
        },
        ExprKindV::Binary(op, a, b) => exists|s: ST, u: ST| #[trigger]
            is_of(w, n, *a, sc, s) && #[trigger] is_of(w, n, *b, sc, u) && operands(op, s, u, t),
        ExprKindV::Unary(op, a) => if op == UnOp::Not {
            suits(w, n, *a, sc, ST::Bool) && t is Bool
        } else {
            suits(w, n, *a, sc, ST::Number) && t is Number
        },
        ExprKindV::App(f, es) => exists|s: ST, u: ST| #[trigger]
            is_of(w, n, *f, sc, s) && #[trigger] arguments_of(w, n, es, sc, u) && match s {
                ST::Fun(d, r) => agrees(u, *d) && t == *r,
                ST::Array(d, r) => agrees(u, *d) && t == *r,
                _ => s is Any && t is Any,
            },
        ExprKindV::ArraySelect(a, j) => exists|s: ST, u: ST| #[trigger]
            is_of(w, n, *a, sc, s) && #[trigger] is_of(w, n, *j, sc, u) && match s {
                ST::Fun(d, r) => agrees(u, *d) && t == *r,
                ST::Array(d, r) => agrees(u, *d) && t == *r,
                _ => s is Any && t is Any,
            },
        ExprKindV::RecordSelect(a, f) => exists|s: ST| #[trigger]
            is_of(w, n, *a, sc, s) && match s {
                ST::Record(fs) => exists|i: int| #[trigger] first_field(fs, f.name, i) && t == fs[i].1,
                _ => s is Any && t is Any,
            },
        ExprKindV::TupleSelect(a, j) => exists|s: ST| #[trigger]
            is_of(w, n, *a, sc, s) && match s {
                ST::Tuple(ts) => 1 <= j <= ts.len() && t == ts[j - 1],
                _ => s is Any && t is Any,
            },
        ExprKindV::Update { target, accesses, value } => is_of(w, n, *target, sc, t) && exists|u: ST| #[trigger]
            lead(w, n, accesses, sc, t, u) && suits(w, n, *value, sc, u),
        ExprKindV::Lambda(ds, b) => match opened(w, n, ds, sc) {
            Some((s, ts)) => t matches ST::Fun(d, r) && *d == taken_together(ts) && is_of(w, n, *b, s, *r),
            None => false,
        },
        ExprKindV::Quantified(_, ds, b) => match opened(w, n, ds, sc) {
            Some((s, _)) => suits(w, n, *b, s, ST::Bool) && t is Bool,
            None => false,
        },
        ExprKindV::Let(ds, b) => match let_opened(w, n, ds, sc) {
            Some(s) => is_of(w, n, *b, s, t),
            None => false,
        },
        ExprKindV::SetPred(p) => t matches ST::Fun(d, r) && *r is Bool && stands_for(w, n, p.ty, sc, *d) && suits(
            w,
            n,
            p.pred,
            sc.push((p.var.name, *d, false)),
            ST::Bool,
        ),
        ExprKindV::SetList(es) => t matches ST::Fun(d, r) && *r is Bool && (!(*d is Any) ==> forall|i: int|
            0 <= i < es.len() ==> suits(w, n, #[trigger] es[i], sc, *d)),
        ExprKindV::ArrayLit(d, b) => t matches ST::Array(i, r) && stands_for(w, n, d.ty, sc, *i) && is_of(
            w,
            n,
            *b,
            if d.names.len() == 0 {
                sc
            } else {
                sc.push((d.names[0].name, *i, false))
            },
            *r,
        ),
        ExprKindV::TupleLit(es) => t matches ST::Tuple(ts) && all_of(w, n, es, sc, ts),
        ExprKindV::Conditional { cond, then_, els, is_elsif: _ } => suits(w, n, *cond, sc, ST::Bool) && exists|
            s: ST,
            u: ST,
        | #[trigger]
            is_of(w, n, *then_, sc, s) && #[trigger] is_of(w, n, *els, sc, u) && agrees(s, u) && t == (if s is Any {
                u
            } else {
                s
            }),
        _ => true,
    }
}

proof fn elements_suit(w: World, n: nat, es: Seq<ExprV>, acc: ST, sc: ScopeV, i: int)
    requires
        0 <= i <= es.len(),
        !(acc is Any) ==> forall|j: int| 0 <= j < i ==> suits(w, n, #[trigger] es[j], sc, acc),
        acc is Any ==> forall|j: int| 0 <= j < i ==> is_of(w, n, #[trigger] es[j], sc, ST::Any),
    ensures
        c_elements(w, es, acc, sc, judge(w, n), i) matches Ok(d) ==> (!(d is Any) ==> forall|j: int|
            0 <= j < es.len() ==> suits(w, n, #[trigger] es[j], sc, d)),
    decreases es.len() - i,
{
    reveal_with_fuel(c_elements, 2);
    if i < es.len() {
        match (judge(w, n).expr)(es[i], sc) {
            Ok(t) => {
                if agrees(t, acc) {
                    let next = if acc == ST::Any {
                        t
                    } else {
                        acc
                    };
                    assert(is_of(w, n, es[i], sc, t));
                    crate::types::agrees_reflexive(t);
                    assert(agrees(ST::Any, next));
                    assert(suits(w, n, es[i], sc, next));
                    assert forall|j: int| 0 <= j < i + 1 && !(next is Any) implies suits(w, n, #[trigger] es[j], sc, next) by {
                        if acc is Any && j < i {
                            assert(is_of(w, n, es[j], sc, ST::Any));
                        }
                    }
                    elements_suit(w, n, es, next, sc, i + 1);
                }
            },
            Err(_) => {},
        }
    }
}

proof fn use_typed(w: World, n: nat, x: ExprV, sc: ScopeV, t: ST)
    requires
        x.kind is Unary || x.kind is App || x.kind is ArraySelect,
        c_infer_use(w, x, sc, judge(w, n)) == Ok::<ST, CEV>(t),
    ensures
        has_type(w, n, x, sc, t),
{
    reveal(c_infer_use);
    match x.kind {
        ExprKindV::Unary(op, a) => {
            suits_required(w, n, *a, sc, ST::Bool);
            suits_required(w, n, *a, sc, ST::Number);
        },
        ExprKindV::App(f, es) => {
            arguments_typed(w, n, es, sc);
            let s = (judge(w, n).expr)(*f, sc)->Ok_0;
            assert(is_of(w, n, *f, sc, s));
        },
        ExprKindV::ArraySelect(a, j) => {
            let s = (judge(w, n).expr)(*a, sc)->Ok_0;
            let u = (judge(w, n).expr)(*j, sc)->Ok_0;
            assert(is_of(w, n, *a, sc, s));
            assert(is_of(w, n, *j, sc, u));
        },
        _ => {},
    }
}

proof fn part_typed(w: World, n: nat, x: ExprV, sc: ScopeV, t: ST)
    requires
        x.kind is RecordSelect || x.kind is TupleSelect || x.kind is Update,
        c_infer_part(w, x, sc, judge(w, n)) == Ok::<ST, CEV>(t),
    ensures
        has_type(w, n, x, sc, t),
{
    reveal(c_infer_part);
    match x.kind {
        ExprKindV::RecordSelect(a, f) => {
            let s = (judge(w, n).expr)(*a, sc)->Ok_0;
            assert(is_of(w, n, *a, sc, s));
            match s {
                ST::Record(fs) => {
                    field_first(fs, f.name, 0);
                },
                _ => {},
            }
        },
        ExprKindV::TupleSelect(a, j) => {
            let s = (judge(w, n).expr)(*a, sc)->Ok_0;
            assert(is_of(w, n, *a, sc, s));
        },
        ExprKindV::Update { target, accesses, value } => {
            assert(accesses.take(0) =~= Seq::empty());
            accesses_lead(w, n, accesses, sc, t, t, x.span, 0);
            let u = c_accessed(w, accesses, t, x.span, sc, judge(w, n), 0)->Ok_0;
            suits_required(w, n, *value, sc, u);
            assert(lead(w, n, accesses, sc, t, u));
        },
        _ => {},
    }
}

proof fn binder_typed(w: World, n: nat, x: ExprV, sc: ScopeV, t: ST)
    requires
        x.kind is Lambda || x.kind is Quantified || x.kind is Let,
        c_infer_binder(w, x, sc, judge(w, n)) == Ok::<ST, CEV>(t),
    ensures
        has_type(w, n, x, sc, t),
{
    reveal(c_infer_binder);
    match x.kind {
        ExprKindV::Lambda(ds, b) => {
            assert(ds.take(0) =~= Seq::empty());
            declare_opens(w, n, ds, sc, sc, Seq::empty(), 0);
        },
        ExprKindV::Quantified(_, ds, b) => {
            assert(ds.take(0) =~= Seq::empty());
            declare_opens(w, n, ds, sc, sc, Seq::empty(), 0);
            let (s, _ts) = opened(w, n, ds, sc)->0;
            suits_required(w, n, *b, s, ST::Bool);
        },
        ExprKindV::Let(ds, b) => {
            assert(ds.take(0) =~= Seq::empty());
            lets_open(w, n, ds, sc, sc, 0);
        },
        _ => {},
    }
}

proof fn set_typed(w: World, n: nat, x: ExprV, sc: ScopeV, t: ST)
    requires
        x.kind is SetPred || x.kind is SetList || x.kind is ArrayLit,
        c_infer_set(w, x, sc, judge(w, n)) == Ok::<ST, CEV>(t),
    ensures
        has_type(w, n, x, sc, t),
{
    reveal(c_infer_set);
    match x.kind {
        ExprKindV::SetPred(p) => {
            reveal(c_predicate);
            let base = (judge(w, n).ty)(p.ty, sc)->Ok_0;
            suits_required(w, n, p.pred, sc.push((p.var.name, base, false)), ST::Bool);
        },
        ExprKindV::SetList(es) => {
            elements_suit(w, n, es, ST::Any, sc, 0);
        },
        ExprKindV::ArrayLit(d, b) => {
            let it = (judge(w, n).ty)(d.ty, sc)->Ok_0;
            if d.names.len() == 0 {
                assert(sc + named(crate::env::first_only(d.names), it, false) =~= sc);
            } else {
                assert(sc + named(crate::env::first_only(d.names), it, false) =~= sc.push((d.names[0].name, it, false)));
            }
        },
        _ => {},
    }
}

proof fn rest_typed(w: World, n: nat, x: ExprV, sc: ScopeV, t: ST)
    requires
        x.kind is TupleLit || x.kind is Conditional || x.kind is Unbounded,
        c_infer_rest(w, x, sc, judge(w, n)) == Ok::<ST, CEV>(t),
    ensures
        has_type(w, n, x, sc, t),
{
    reveal(c_infer_rest);
    match x.kind {
        ExprKindV::TupleLit(es) => {
            exprs_all(w, n, es, Seq::empty(), sc, 0);
        },
        ExprKindV::Conditional { cond, then_, els, is_elsif } => {
            suits_required(w, n, *cond, sc, ST::Bool);
            let s = (judge(w, n).expr)(*then_, sc)->Ok_0;
            let u = (judge(w, n).expr)(*els, sc)->Ok_0;
            assert(is_of(w, n, *then_, sc, s));
            assert(is_of(w, n, *els, sc, u));
            agrees_symmetric(s, u);
        },
        _ => {},
    }
}

/// An expression that is accepted has the type that the rule of its kind gives it: the operands of a connective
/// are truth values, the sides of an equation compatible, the operands of an arithmetic operation numbers, arguments
/// and indices compatible with what is applied to them, values with the declared types, and so on.
pub proof fn expression_typed(w: World, n: nat, x: ExprV, sc: ScopeV, t: ST)
    requires
        is_of(w, n + 1, x, sc, t),
    ensures
        has_type(w, n, x, sc, t),
{
    judge_rules(w, n + 1);
    reveal(c_infer);
    let g = judge(w, n);
    match x.kind {
        ExprKindV::Name(m) => {
            reveal(c_name_type);
            match scope_type(sc, m.id.name, false) {
                Some(s) if m.ctx is None => {},
                _ => {
                    let f = c_lookup(w, m, sc, g)->Ok_0;
                    assert((judge(w, n + 1).name)(m, sc) == Ok::<(nat, EntryV), CEV>(f));
                    match f.1 {
                        EntryV::Const(_, v) => {
                            assert((judge(w, n + 1).name)(m, sc) == Ok::<(nat, EntryV), CEV>(
                                (f.0, EntryV::Const(t, v)),
                            ));
                        },
                        _ => {},
                    }
                },
            }
        },
        ExprKindV::Binary(op, a, b) => {
            reveal(c_binary);
            let s = (g.expr)(*a, sc)->Ok_0;
            let u = (g.expr)(*b, sc)->Ok_0;
            assert(is_of(w, n, *a, sc, s));
            assert(is_of(w, n, *b, sc, u));
            agrees_symmetric(s, u);
        },
        ExprKindV::Unary(..) => {
            use_typed(w, n, x, sc, t);
        },
        ExprKindV::App(..) => {
            use_typed(w, n, x, sc, t);
        },
        ExprKindV::ArraySelect(..) => {
            use_typed(w, n, x, sc, t);
        },
        ExprKindV::RecordSelect(..) => {
            reveal(c_infer_use);
            part_typed(w, n, x, sc, t);
        },
        ExprKindV::TupleSelect(..) => {
            reveal(c_infer_use);
            part_typed(w, n, x, sc, t);
        },
        ExprKindV::Update { .. } => {
            reveal(c_infer_use);
            part_typed(w, n, x, sc, t);
        },
        ExprKindV::Lambda(..) => {
            reveal(c_infer_use);
            reveal(c_infer_part);
            binder_typed(w, n, x, sc, t);
        },
        ExprKindV::Quantified(..) => {
            reveal(c_infer_use);
            reveal(c_infer_part);
            binder_typed(w, n, x, sc, t);
        },
        ExprKindV::Let(..) => {
            reveal(c_infer_use);
            reveal(c_infer_part);
            binder_typed(w, n, x, sc, t);
        },
        ExprKindV::SetPred(..) => {
            reveal(c_infer_use);
            reveal(c_infer_part);
            reveal(c_infer_binder);
            set_typed(w, n, x, sc, t);
        },
        ExprKindV::SetList(..) => {
            reveal(c_infer_use);
            reveal(c_infer_part);
            reveal(c_infer_binder);
            set_typed(w, n, x, sc, t);
        },
        ExprKindV::ArrayLit(..) => {
            reveal(c_infer_use);
            reveal(c_infer_part);
            reveal(c_infer_binder);
            set_typed(w, n, x, sc, t);
        },
        ExprKindV::TupleLit(..) => {
            reveal(c_infer_use);
            reveal(c_infer_part);
            reveal(c_infer_binder);
            reveal(c_infer_set);
            rest_typed(w, n, x, sc, t);
        },
        ExprKindV::Conditional { .. } => {
            reveal(c_infer_use);
            reveal(c_infer_part);
            reveal(c_infer_binder);
            reveal(c_infer_set);
            rest_typed(w, n, x, sc, t);
        },
        ExprKindV::Unbounded => {
            reveal(c_infer_use);
            reveal(c_infer_part);
            reveal(c_infer_binder);
            reveal(c_infer_set);
            rest_typed(w, n, x, sc, t);
        },
        _ => {},
    }
}

/// Number `p` is the first variable of the name.
pub open spec fn first_var(vs: Seq<VarV>, name: Seq<char>, p: int) -> bool {
    0 <= p < vs.len() && vs[p].0 == name && forall|j: int| 0 <= j < p ==> (#[trigger] vs[j]).0 != name
}

proof fn var_first(vs: Seq<VarV>, name: Seq<char>, i: int)
    requires
        0 <= i <= vs.len(),
        forall|j: int| 0 <= j < i ==> (#[trigger] vs[j]).0 != name,
    ensures
        var_at(vs, name, i) matches Some(p) ==> first_var(vs, name, p as int),
    decreases vs.len() - i,
{
    if i < vs.len() && vs[i].0 != name {
        var_first(vs, name, i + 1);
    }
}

/// The left side is a part, of the type `t`, of the first state variable of its name, number `p`, which is no input, and
/// of the next state only where that is allowed; the right side is compatible with the part, or is a set of such values.
pub open spec fn assigns(
    w: World,
    n: nat,
    s: SimpleDefinitionV,
    vs: Seq<VarV>,
    next: bool,
    sc: ScopeV,
    p: int,
    t: ST,
) -> bool {
    &&& first_var(vs, s.lhs.base.name, p)
    &&& vs[p].1 != VarClass::Input
    &&& s.lhs.next ==> next
    &&& lead(w, n, s.lhs.accesses, sc, vs[p].2, t)
    &&& match s.rhs {
        RhsV::Expr(e) => suits(w, n, e, sc, t),
        RhsV::Selection(e) => suits(w, n, e, sc, ST::Fun(Box::new(t), Box::new(ST::Bool))),
    }
}

/// A definition is well typed: its left side is part of a state variable that the module may give values, and its
/// right side is compatible with that part, or is a set of such values; a family of definitions is where each of them
/// is, with the index variables in scope.
pub open spec fn well_defined(w: World, n: nat, d: DefinitionV, vs: Seq<VarV>, next: bool, sc: ScopeV) -> bool {
    match d {
        DefinitionV::Simple(s) => exists|p: int, t: ST| #[trigger] assigns(w, n, s, vs, next, sc, p, t),
        DefinitionV::Forall(ds, defs) => match opened(w, n, ds, sc) {
            Some((s, _)) => forall|i: int|
                0 <= i < defs.len() ==> (judge(w, n).def)(#[trigger] defs[i], vs, next, s) is Ok,
            None => false,
        },
    }
}

proof fn defs_accepted(w: World, n: nat, v: Seq<DefinitionV>, vs: Seq<VarV>, next: bool, sc: ScopeV, i: int)
    requires
        0 <= i <= v.len(),
        c_defs(w, v, vs, next, sc, judge(w, n), i) is Ok,
    ensures
        forall|j: int| i <= j < v.len() ==> (judge(w, n).def)(#[trigger] v[j], vs, next, sc) is Ok,
    decreases v.len() - i,
{
    reveal_with_fuel(c_defs, 2);
    if i < v.len() {
        defs_accepted(w, n, v, vs, next, sc, i + 1);
    }
}

/// A definition that is accepted is well typed: the type of the right side is compatible with that of the left
/// side.
pub proof fn definition_typed(w: World, n: nat, d: DefinitionV, vs: Seq<VarV>, next: bool, sc: ScopeV)
    requires
        (judge(w, n + 1).def)(d, vs, next, sc) is Ok,
    ensures
        well_defined(w, n, d, vs, next, sc),
{
    judge_rules(w, n + 1);
    reveal(c_def_body);
    match d {
        DefinitionV::Simple(s) => {
            reveal(c_simple);
            reveal(c_assigned);
            reveal(c_agreeing);
            reveal(c_agreeing_with);
            reveal(crate::ast::rhs_value);
            var_first(vs, s.lhs.base.name, 0);
            let p = var_at(vs, s.lhs.base.name, 0)->0;
            let v = s.lhs.accesses;
            assert(v.take(0) =~= Seq::empty());
            accesses_lead(w, n, v, sc, vs[p as int].2, vs[p as int].2, s.lhs.span, 0);
            let t = c_accessed(w, v, vs[p as int].2, s.lhs.span, sc, judge(w, n), 0)->Ok_0;
            match s.rhs {
                RhsV::Expr(e) => {
                    suits_required(w, n, e, sc, t);
                },
                RhsV::Selection(e) => {
                    suits_required(w, n, e, sc, ST::Fun(Box::new(t), Box::new(ST::Bool)));
                },
            }
            assert(first_var(vs, s.lhs.base.name, p as int));
            assert(lead(w, n, s.lhs.accesses, sc, vs[p as int].2, t));
            assert(assigns(w, n, s, vs, next, sc, p as int, t));
        },
        DefinitionV::Forall(ds, defs) => {
            assert(ds.take(0) =~= Seq::empty());
            declare_opens(w, n, ds, sc, sc, Seq::empty(), 0);
            let (s, _ts) = opened(w, n, ds, sc)->0;
            defs_accepted(w, n, defs, vs, next, s, 0);
        },
    }
}

/// A command is well typed: its guard is a condition, and its assignments are accepted; a family of commands is where
/// the command is, with the index variables in scope.
pub open spec fn well_guarded(w: World, n: nat, c: SomeCommandV, vs: Seq<VarV>, next: bool, sc: ScopeV) -> bool {
    match c {
        SomeCommandV::Guarded(x) => (x.guard matches Some(e) ==> suits(w, n, e, sc, ST::Bool)) && forall|i: int|
            0 <= i < x.assignments.len() ==> (judge(w, n).def)(#[trigger] x.assignments[i], vs, next, sc) is Ok,
        SomeCommandV::Multi(ds, c, _) => match opened(w, n, ds, sc) {
            Some((s, _)) => (judge(w, n).cmd)(*c, vs, next, s) is Ok,
            None => false,
        },
    }
}

/// A command that is accepted is well typed.
pub proof fn command_typed(w: World, n: nat, c: SomeCommandV, vs: Seq<VarV>, next: bool, sc: ScopeV)
    requires
        (judge(w, n + 1).cmd)(c, vs, next, sc) is Ok,
    ensures
        well_guarded(w, n, c, vs, next, sc),
{
    judge_rules(w, n + 1);
    reveal(c_cmd_body);
    match c {
        SomeCommandV::Guarded(x) => {
            reveal(c_guarded);
            reveal(c_guard);
            match x.guard {
                Some(e) => {
                    suits_required(w, n, e, sc, ST::Bool);
                },
                None => {},
            }
            defs_accepted(w, n, x.assignments, vs, next, sc, 0);
        },
        SomeCommandV::Multi(ds, c, _) => {
            assert(ds.take(0) =~= Seq::empty());
            declare_opens(w, n, ds, sc, sc, Seq::empty(), 0);
        },
    }
}

/// The section of a module is well typed: each of its definitions and commands is accepted.
pub open spec fn well_formed(w: World, n: nat, d: BaseDeclV, vs: Seq<VarV>, sc: ScopeV) -> bool {
    match d {
        BaseDeclV::Vars(_, _) => true,
        BaseDeclV::Definition(ds) => forall|i: int|
            0 <= i < ds.len() ==> (judge(w, n).def)(#[trigger] ds[i], vs, false, sc) is Ok,
        BaseDeclV::Initialization(ds) => forall|i: int| 0 <= i < ds.len() ==> item_ok(w, n, #[trigger] ds[i], vs, false, sc),
        BaseDeclV::Transition(ds) => forall|i: int| 0 <= i < ds.len() ==> item_ok(w, n, #[trigger] ds[i], vs, true, sc),
    }
}

/// A definition, or each command of a choice, is accepted.
pub open spec fn item_ok(w: World, n: nat, d: DefOrCommandV, vs: Seq<VarV>, next: bool, sc: ScopeV) -> bool {
    match d {
        DefOrCommandV::Def(d) => (judge(w, n).def)(d, vs, next, sc) is Ok,
        DefOrCommandV::Commands(cs, _) => forall|j: int|
            0 <= j < cs.len() ==> (judge(w, n).cmd)(#[trigger] cs[j], vs, next, sc) is Ok,
    }
}

proof fn cmds_accepted(w: World, n: nat, v: Seq<SomeCommandV>, vs: Seq<VarV>, next: bool, sc: ScopeV, i: int)
    requires
        0 <= i <= v.len(),
        c_cmds(w, v, vs, next, sc, judge(w, n), i) is Ok,
    ensures
        forall|j: int| i <= j < v.len() ==> (judge(w, n).cmd)(#[trigger] v[j], vs, next, sc) is Ok,
    decreases v.len() - i,
{
    reveal_with_fuel(c_cmds, 2);
    if i < v.len() {
        cmds_accepted(w, n, v, vs, next, sc, i + 1);
    }
}

proof fn items_accepted(w: World, n: nat, v: Seq<DefOrCommandV>, vs: Seq<VarV>, next: bool, sc: ScopeV, i: int)
    requires
        0 <= i <= v.len(),
        c_items(w, v, vs, next, sc, judge(w, n), i) is Ok,
    ensures
        forall|j: int| i <= j < v.len() ==> item_ok(w, n, #[trigger] v[j], vs, next, sc),
    decreases v.len() - i,
{
    reveal_with_fuel(c_items, 2);
    if i < v.len() {
        match v[i] {
            DefOrCommandV::Def(d) => {},
            DefOrCommandV::Commands(cs, _) => {
                cmds_accepted(w, n, cs, vs, next, sc, 0);
            },
        }
        items_accepted(w, n, v, vs, next, sc, i + 1);
    }
}

proof fn sections_accepted(w: World, n: nat, v: Seq<BaseDeclV>, vs: Seq<VarV>, sc: ScopeV, i: int)
    requires
        0 <= i <= v.len(),
        c_sections(w, v, vs, sc, judge(w, n), i) is Ok,
    ensures
        forall|j: int| i <= j < v.len() ==> well_formed(w, n, #[trigger] v[j], vs, sc),
    decreases v.len() - i,
{
    reveal_with_fuel(c_sections, 2);
    if i < v.len() {
        match v[i] {
            BaseDeclV::Vars(_, _) => {},
            BaseDeclV::Definition(ds) => {
                defs_accepted(w, n, ds, vs, false, sc, 0);
            },
            BaseDeclV::Initialization(ds) => {
                items_accepted(w, n, ds, vs, false, sc, 0);
            },
            BaseDeclV::Transition(ds) => {
                items_accepted(w, n, ds, vs, true, sc, 0);
            },
        }
        sections_accepted(w, n, v, vs, sc, i + 1);
    }
}

/// In a base module that is accepted every section is well typed, with the state variables in scope.
pub proof fn module_typed(w: World, n: nat, m: ModuleV, b: crate::ast::BaseModuleV, sc: ScopeV, vs: Seq<VarV>)
    requires
        m.kind == ModuleKindV::Base(b),
        (judge(w, n + 1).module)(m, sc) == Ok::<Seq<VarV>, CEV>(vs),
    ensures
        forall|i: int|
            0 <= i < b.decls.len() ==> well_formed(
                w,
                n,
                #[trigger] b.decls[i],
                vs,
                sc + Seq::new(vs.len(), |j: int| (vs[j].0, vs[j].2, true)),
            ),
{
    judge_rules(w, n + 1);
    reveal(c_module_kind);
    reveal(c_base);
    assert(state_binds(vs) =~= Seq::new(vs.len(), |j: int| (vs[j].0, vs[j].2, true)));
    sections_accepted(w, n, b.decls, vs, sc + state_binds(vs), 0);
}

proof fn args_suit(w: World, n: nat, v: Seq<ExprV>, ps: Seq<(Seq<char>, ST)>, sc: ScopeV, i: int)
    requires
        0 <= i <= v.len(),
        v.len() == ps.len(),
        c_module_args(w, v, ps, sc, judge(w, n), i) is Ok,
    ensures
        forall|j: int| i <= j < v.len() ==> suits(w, n, #[trigger] v[j], sc, ps[j].1),
    decreases v.len() - i,
{
    reveal_with_fuel(c_module_args, 2);
    if i < v.len() {
        suits_required(w, n, v[i], sc, ps[i].1);
        args_suit(w, n, v, ps, sc, i + 1);
    }
}

/// An instance of a module that is accepted is one of a declared module, with as many arguments as it has
/// parameters, each compatible with its parameter.
pub proof fn instance_typed(
    w: World,
    n: nat,
    m: ModuleV,
    name: crate::ast::NameV,
    args: Seq<ExprV>,
    sc: ScopeV,
    vs: Seq<VarV>,
)
    requires
        m.kind == ModuleKindV::Instance(name, args),
        (judge(w, n + 1).module)(m, sc) == Ok::<Seq<VarV>, CEV>(vs),
    ensures
        (judge(w, n + 1).name)(name, sc) matches Ok(f) && (f.1 matches EntryV::Module(ps, us, _, _) && us == vs && ps.len()
            == args.len() && forall|i: int| 0 <= i < args.len() ==> suits(w, n, #[trigger] args[i], sc, ps[i].1)),
{
    judge_rules(w, n + 1);
    reveal(c_module_kind);
    match (judge(w, n + 1).name)(name, sc) {
        Ok(f) => {
            match f.1 {
                EntryV::Module(ps, us, _, _) => {
                    args_suit(w, n, args, ps, sc, 0);
                },
                _ => {},
            }
        },
        Err(_) => {},
    }
}

/// The declaration of a constant that is accepted, in its second step, gives it a value that is compatible
/// with the declared type; a claim about a module is a condition on its states.
pub proof fn declaration_typed(w: World, n: nat, d: DeclV, key: Seq<char>, j: nat, sc: ScopeV)
    requires
        c_decl(w, d, key, j, sc, judge(w, n)) is Ok,
    ensures
        match d {
            DeclV::Constant { name, args, ty: _, value } => j > 0 && value is Some ==> match opened(w, n, args, sc) {
                Some((s, _)) => suits(w, n, value->0, s, range_at(w, name.name, args.len() == 0)),
                None => false,
            },
            DeclV::Assertion { name: _, form: _, body } => match body {
                AssertionExprV::Models { module, formula } => exists|vs: Seq<VarV>| #[trigger]
                    models_of(w, n, module, sc, vs) && suits(
                        w,
                        n,
                        formula,
                        sc + Seq::new(vs.len(), |i: int| (vs[i].0, vs[i].2, true)),
                        ST::Bool,
                    ),
                AssertionExprV::Implements { concrete, abstract_ } => (judge(w, n).module)(concrete, sc) is Ok && (judge(
                    w,
                    n,
                ).module)(abstract_, sc) is Ok,
            },
            _ => true,
        },
{
    reveal(c_decl);
    match d {
        DeclV::Constant { name, args, ty, value } => {
            if j > 0 && value is Some {
                reveal(c_const_value);
                assert(args.take(0) =~= Seq::empty());
                declare_opens(w, n, args, sc, sc, Seq::empty(), 0);
                let (s, _ts) = opened(w, n, args, sc)->0;
                suits_required(w, n, value->0, s, range_at(w, name.name, args.len() == 0));
            }
        },
        DeclV::Assertion { name, form, body } => {
            reveal(c_assertion);
            match body {
                AssertionExprV::Models { module, formula } => {
                    let vs = (judge(w, n).module)(module, sc)->Ok_0;
                    assert(models_of(w, n, module, sc, vs));
                    assert(state_binds(vs) =~= Seq::new(vs.len(), |i: int| (vs[i].0, vs[i].2, true)));
                    suits_required(w, n, formula, sc + state_binds(vs), ST::Bool);
                },
                _ => {},
            }
        },
        _ => {},
    }
}

/// The module has the state variables.
pub open spec fn models_of(w: World, n: nat, m: ModuleV, sc: ScopeV, vs: Seq<VarV>) -> bool {
    (judge(w, n).module)(m, sc) == Ok::<Seq<VarV>, CEV>(vs)
}

} // verus!
