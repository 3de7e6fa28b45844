//! What the type checker judges: the rules, and the knot that ties them.

use crate::ast::{
    rhs_value, AccessV, ActualV, AssertionExprV, BaseDeclV, BaseModuleV, BinOp, ConstructorV, ContextNameV,
    CtxParamV, DeclV, DefOrCommandV, Definition, DefinitionV, Expr, ExprKindV, ExprV, FieldDeclV, GuardedCommandV,
    IdentV, LetDeclV, LhsV, Module, ModuleKindV, ModuleV, Name, NameV, NewVarDeclV, RhsV, SalContextV, SetPred,
    SetPredV, SomeCommandV, Type, TypeDefV, TypeKindV, TypeV, UnOp, VarClass, VarDeclV,
};
use crate::env::{
    arrayed, binds, constructed, consts, count_text, field_in, field_type, fields_named, first_only, formals,
    fun_sem, instance_at, key_text, named, packed, parts_of, renamed, replaced, same_types, scope_type, source_at,
    state_binds, state_named, string_sem, symbol, type_params, types_of, var_at, BindingV, EntryV, InstV, Instance,
    ScopeV, SymbolsV, VarV,
};
use crate::span::Span;
use crate::types::{agrees, agrees_symmetric, sem_text, Tid, ST};
use vstd::prelude::*;

verus! {

/// The content of a failure.
pub ghost enum CEV {
    Semantic(Seq<char>, Span, Seq<char>),
    Missing(Seq<char>),
    Need(nat, Seq<char>, Seq<(Seq<char>, BindingV)>),
    Deep,
}

/// The value of a function as a lambda, where it has one.
pub open spec fn lambda_of(args: Seq<VarDeclV>, value: Option<ExprV>) -> Option<ExprV> {
    match value {
        Some(v) => Some(ExprV { kind: ExprKindV::Lambda(args, Box::new(v)), span: v.span, parens: 0 }),
        None => None,
    }
}

/// What a check gives.
pub type CR<T> = Result<T, CEV>;

/// Where a check takes place: the instances, the first of them the prelude, the known contexts,
/// and the instance that is being checked.
pub ghost struct World {
    pub insts: Seq<InstV>,
    pub lib: Seq<SalContextV>,
    pub here: nat,
}

/// An error at a place of the context that is being checked.
pub open spec fn semantic(w: World, span: Span, msg: Seq<char>) -> CEV {
    CEV::Semantic(
        if w.here < w.insts.len() {
            w.insts[w.here as int].name
        } else {
            Seq::empty()
        },
        span,
        msg,
    )
}

/// The error that an instance depends on itself.
pub open spec fn cyclic(w: World, id: nat, d: nat) -> CEV {
    CEV::Semantic(
        w.insts[id as int].name,
        w.lib[d as int].span,
        "Cyclic dependency on context \""@ + w.insts[id as int].name + "\"."@,
    )
}

/// What a name stands for in an instance.
pub open spec fn symbol_at(w: World, id: nat, name: Seq<char>) -> Option<EntryV> {
    if id < w.insts.len() {
        symbol(w.insts[id as int].symbols, name)
    } else {
        None
    }
}

/// The symbols of an instance.
pub open spec fn symbols_of(w: World, id: nat) -> SymbolsV {
    if id < w.insts.len() {
        w.insts[id as int].symbols
    } else {
        Seq::empty()
    }
}

/// The type of the value of a constant that has been declared, as a plain constant or as a function.
pub open spec fn range_at(w: World, name: Seq<char>, plain: bool) -> ST {
    match symbol_at(w, w.here, name) {
        Some(EntryV::Const(t, _v)) => if plain {
            t
        } else {
            match t {
                ST::Fun(_a, b) => *b,
                _ => ST::Any,
            }
        },
        _ => ST::Any,
    }
}

/// The instance that the name of a context is declared to stand for.
pub open spec fn alias(w: World, cn: ContextNameV) -> Option<nat> {
    if cn.actuals.len() == 0 {
        match symbol_at(w, w.here, cn.name.name) {
            Some(EntryV::Ctx(id)) => Some(id),
            _ => None,
        }
    } else {
        None
    }
}

/// The first type has to agree with the second.
pub open spec fn required(w: World, span: Span, actual: ST, expected: ST) -> CR<()> {
    if agrees(actual, expected) {
        Ok(())
    } else {
        Err(
            semantic(
                w,
                span,
                "Type mismatch: expected "@ + sem_text(expected) + ", found "@ + sem_text(actual) + "."@,
            ),
        )
    }
}

/// The type of the variable in scope that a name stands for.
pub open spec fn local(sc: ScopeV, n: NameV) -> Option<ST> {
    if n.ctx is None {
        scope_type(sc, n.id.name, false)
    } else {
        None
    }
}

/// A connective.
pub open spec fn is_logical(op: BinOp) -> bool {
    op == BinOp::And || op == BinOp::Or || op == BinOp::Xor || op == BinOp::Implies || op == BinOp::Iff
}

/// A comparison of numbers by size.
pub open spec fn is_order(op: BinOp) -> bool {
    op == BinOp::Lt || op == BinOp::Le || op == BinOp::Gt || op == BinOp::Ge
}

/// The index and element type of what an index can be applied to.
pub open spec fn index_parts(t: ST) -> Option<(ST, ST)> {
    match t {
        ST::Array(a, b) => Some((*a, *b)),
        ST::Fun(a, b) => Some((*a, *b)),
        _ => None,
    }
}

/// The domain and range of a function.
pub open spec fn fun_parts(t: ST) -> Option<(ST, ST)> {
    match t {
        ST::Fun(a, b) => Some((*a, *b)),
        _ => None,
    }
}

/// The class of a variable that two composed modules share.
pub open spec fn class_merge(a: VarClass, b: VarClass) -> VarClass {
    if b == VarClass::Output || (a == VarClass::Input && b == VarClass::Global) {
        b
    } else {
        a
    }
}

/// The state variables of composed modules: those of the first, and those of the second from `i`
/// on. A local variable of both becomes a pair; any other variable of both has one type.
#[verifier::opaque]
pub open spec fn merged(w: World, span: Span, a: Seq<VarV>, b: Seq<VarV>, i: int) -> CR<Seq<VarV>>
    decreases b.len() - i,
{
    if i < 0 || i >= b.len() {
        Ok(a)
    } else {
        match var_at(a, b[i].0, 0) {
            None => merged(w, span, a.push(b[i]), b, i + 1),
            Some(p) => {
                let x = a[p as int];
                if x.1 == VarClass::Local && b[i].1 == VarClass::Local {
                    merged(w, span, a.update(p as int, (x.0, x.1, ST::Tuple(seq![x.2, b[i].2]))), b, i + 1)
                } else if !agrees(x.2, b[i].2) {
                    Err(
                        semantic(
                            w,
                            span,
                            "Variable \""@ + b[i].0
                                + "\" is declared with incompatible types in composed modules."@,
                        ),
                    )
                } else {
                    merged(w, span, a.update(p as int, (x.0, class_merge(x.1, b[i].1), x.2)), b, i + 1)
                }
            },
        }
    }
}

/// State variables with the class of the named ones changed, from the name `i` on.
#[verifier::opaque]
pub open spec fn reclassed(w: World, ids: Seq<IdentV>, vs: Seq<VarV>, class: VarClass, i: int) -> CR<Seq<VarV>>
    decreases ids.len() - i,
{
    if i < 0 || i >= ids.len() {
        Ok(vs)
    } else {
        match var_at(vs, ids[i].name, 0) {
            None => Err(
                semantic(w, ids[i].span, "Undeclared state variable \""@ + ids[i].name + "\"."@),
            ),
            Some(p) => reclassed(
                w,
                ids,
                vs.update(p as int, (vs[p as int].0, class, vs[p as int].2)),
                class,
                i + 1,
            ),
        }
    }
}

/// State variables with declared ones added, from the name `i` on. A variable may be declared again
/// with the same class and type.
#[verifier::opaque]
pub open spec fn declared(w: World, ids: Seq<IdentV>, class: VarClass, t: ST, vs: Seq<VarV>, i: int) -> CR<
    Seq<VarV>,
>
    decreases ids.len() - i,
{
    if i < 0 || i >= ids.len() {
        Ok(vs)
    } else {
        match var_at(vs, ids[i].name, 0) {
            None => declared(w, ids, class, t, vs.push((ids[i].name, class, t)), i + 1),
            Some(p) => if vs[p as int].1 != class || !agrees(vs[p as int].2, t) {
                Err(semantic(w, ids[i].span, "Variable \""@ + ids[i].name + "\" is declared twice."@))
            } else {
                declared(w, ids, class, t, vs, i + 1)
            },
        }
    }
}

/// How the parts of a piece of syntax are judged.
pub ghost struct Judge {
    pub name: spec_fn(NameV, ScopeV) -> CR<(nat, EntryV)>,
    pub expr: spec_fn(ExprV, ScopeV) -> CR<ST>,
    pub ty: spec_fn(TypeV, ScopeV) -> CR<ST>,
    pub module: spec_fn(ModuleV, ScopeV) -> CR<Seq<VarV>>,
    pub def: spec_fn(DefinitionV, Seq<VarV>, bool, ScopeV) -> CR<()>,
    pub cmd: spec_fn(SomeCommandV, Seq<VarV>, bool, ScopeV) -> CR<()>,
}

/// The type that a type expression stands for.
#[verifier::opaque]
pub open spec fn c_type_kind(w: World, x: TypeV, sc: ScopeV, g: Judge) -> CR<ST>
{
    match x.kind {
        TypeKindV::Name(n) => {
            match c_lookup(w, n, sc, g) {
                Err(e) => Err(e),
                Ok(found) => {
                    match found.1 {
                        EntryV::Type(t, _d) => {
                            Ok(t)
                        },
                        _ => {
                            Err(semantic(w, x.span, "Unknown type \""@ + n.id.name + "\"."@))
                        },
                    }
                },
            }
        },
        TypeKindV::Subrange(lo, hi) => {
            match c_bound(w, *lo, sc, g) {
                Err(e) => Err(e),
                Ok(_a) => {
                    match c_bound(w, *hi, sc, g) {
                        Err(e) => Err(e),
                        Ok(_b) => {
                            Ok(ST::Number)
                        },
                    }
                },
            }
        },
        TypeKindV::Subtype(sp) => {
            match (g.ty)(sp.ty, sc) {
                Err(e) => Err(e),
                Ok(base) => {
                    match c_predicate(w, *sp, base, sc, g) {
                        Err(e) => Err(e),
                        Ok(_a) => {
                            Ok(base)
                        },
                    }
                },
            }
        },
        TypeKindV::Array(a, b) => {
            match (g.ty)(*a, sc) {
                Err(e) => Err(e),
                Ok(i) => {
                    match (g.ty)(*b, sc) {
                        Err(e) => Err(e),
                        Ok(e) => {
                            Ok(ST::Array(Box::new(i), Box::new(e)))
                        },
                    }
                },
            }
        },
        TypeKindV::Tuple(ts) => {
            let none = Seq::<ST>::empty();
            match c_types(w, ts, none, sc, g, 0) {
                Err(e) => Err(e),
                Ok(v) => {
                    Ok(ST::Tuple(v))
                },
            }
        },
        TypeKindV::Function(a, b) => {
            match (g.ty)(*a, sc) {
                Err(e) => Err(e),
                Ok(d) => {
                    match (g.ty)(*b, sc) {
                        Err(e) => Err(e),
                        Ok(r) => {
                            Ok(ST::Fun(Box::new(d), Box::new(r)))
                        },
                    }
                },
            }
        },
        TypeKindV::Record(fs) => {
            let none = Seq::<(Seq<char>, ST)>::empty();
            match c_fields(w, fs, none, sc, g, 0) {
                Err(e) => Err(e),
                Ok(v) => {
                    Ok(ST::Record(v))
                },
            }
        },
        TypeKindV::State(m) => {
            match (g.module)(*m, sc) {
                Err(e) => Err(e),
                Ok(_a) => {
                    Ok(ST::State)
                },
            }
        },
    }
}

/// A bound of a subrange is a number, or left open.
#[verifier::opaque]
pub open spec fn c_bound(w: World, x: ExprV, sc: ScopeV, g: Judge) -> CR<()>
{
    if x.kind is Unbounded {
        Ok(())
    } else {
        match (g.expr)(x, sc) {
            Err(e) => Err(e),
            Ok(t) => {
                required(w, x.span, t, ST::Number)
            },
        }
    }
}

/// The predicate of a set is a condition on its elements.
#[verifier::opaque]
pub open spec fn c_predicate(w: World, x: SetPredV, base: ST, sc: ScopeV, g: Judge) -> CR<()>
{
    let sc2 = sc.push((x.var.name, base, false));
    match (g.expr)(x.pred, sc2) {
        Err(e) => Err(e),
        Ok(t) => {
            required(w, x.pred.span, t, ST::Bool)
        },
    }
}

/// Several types.
#[verifier::opaque]
pub open spec fn c_types(w: World, v: Seq<TypeV>, acc: Seq<ST>, sc: ScopeV, g: Judge, i: int) -> CR<Seq<ST>>
    decreases v.len() - i,
{
    if i < 0 || i >= v.len() {
        Ok(acc)
    } else {
        match (g.ty)(v[i], sc) {
            Err(e) => Err(e),
            Ok(t) => {
                let acc = acc.push(t);
                c_types(w, v, acc, sc, g, i + 1)
            },
        }
    }
}

/// The fields of a record type, sorted by name.
#[verifier::opaque]
pub open spec fn c_fields(w: World, v: Seq<FieldDeclV>, acc: Seq<(Seq<char>, ST)>, sc: ScopeV, g: Judge, i: int) -> CR<Seq<(Seq<char>, ST)>>
    decreases v.len() - i,
{
    if i < 0 || i >= v.len() {
        Ok(acc)
    } else {
        match (g.ty)(v[i].ty, sc) {
            Err(e) => Err(e),
            Ok(t) => {
                let acc = field_in(acc, v[i].name.name, t);
                c_fields(w, v, acc, sc, g, i + 1)
            },
        }
    }
}

/// The types of several expressions.
#[verifier::opaque]
pub open spec fn c_exprs(w: World, v: Seq<ExprV>, acc: Seq<ST>, sc: ScopeV, g: Judge, i: int) -> CR<Seq<ST>>
    decreases v.len() - i,
{
    if i < 0 || i >= v.len() {
        Ok(acc)
    } else {
        match (g.expr)(v[i], sc) {
            Err(e) => Err(e),
            Ok(t) => {
                let acc = acc.push(t);
                c_exprs(w, v, acc, sc, g, i + 1)
            },
        }
    }
}

/// The type of arguments: that of the one, or the tuple of all.
#[verifier::opaque]
pub open spec fn c_arguments(w: World, v: Seq<ExprV>, sc: ScopeV, g: Judge) -> CR<ST>
{
    let none = Seq::<ST>::empty();
    match c_exprs(w, v, none, sc, g, 0) {
        Err(e) => Err(e),
        Ok(ts) => {
            Ok(packed(ts))
        },
    }
}

/// The elements of a set have one type.
#[verifier::opaque]
pub open spec fn c_elements(w: World, v: Seq<ExprV>, acc: ST, sc: ScopeV, g: Judge, i: int) -> CR<ST>
    decreases v.len() - i,
{
    if i < 0 || i >= v.len() {
        Ok(acc)
    } else {
        match (g.expr)(v[i], sc) {
            Err(e) => Err(e),
            Ok(t) => {
                match required(w, v[i].span, t, acc) {
                    Err(e) => Err(e),
                    Ok(_u) => {
                        let acc = if acc == ST::Any { t } else { acc };
                        c_elements(w, v, acc, sc, g, i + 1)
                    },
                }
            },
        }
    }
}

/// The fields of a record, sorted by name.
#[verifier::opaque]
pub open spec fn c_entries(w: World, v: Seq<(IdentV, ExprV)>, acc: Seq<(Seq<char>, ST)>, sc: ScopeV, g: Judge, i: int) -> CR<Seq<(Seq<char>, ST)>>
    decreases v.len() - i,
{
    if i < 0 || i >= v.len() {
        Ok(acc)
    } else {
        match (g.expr)(v[i].1, sc) {
            Err(e) => Err(e),
            Ok(t) => {
                let acc = field_in(acc, v[i].0.name, t);
                c_entries(w, v, acc, sc, g, i + 1)
            },
        }
    }
}

/// Brings variables into scope; their types.
#[verifier::opaque]
pub open spec fn c_declare(w: World, v: Seq<VarDeclV>, acc: Seq<ST>, sc: ScopeV, g: Judge, i: int) -> CR<(ScopeV, Seq<ST>)>
    decreases v.len() - i,
{
    if i < 0 || i >= v.len() {
        Ok((sc, acc))
    } else {
        match (g.ty)(v[i].ty, sc) {
            Err(e) => Err(e),
            Ok(t) => {
                let acc = acc + same_types(v[i].names.len(), t);
                let sc = sc + named(v[i].names, t, false);
                c_declare(w, v, acc, sc, g, i + 1)
            },
        }
    }
}

/// Brings local declarations into scope.
#[verifier::opaque]
pub open spec fn c_lets(w: World, v: Seq<LetDeclV>, sc: ScopeV, g: Judge, i: int) -> CR<ScopeV>
    decreases v.len() - i,
{
    if i < 0 || i >= v.len() {
        Ok(sc)
    } else {
        match (g.ty)(v[i].ty, sc) {
            Err(e) => Err(e),
            Ok(t) => {
                match (g.expr)(v[i].value, sc) {
                    Err(e) => Err(e),
                    Ok(vt) => {
                        match required(w, v[i].value.span, vt, t) {
                            Err(e) => Err(e),
                            Ok(_u) => {
                                let sc = sc.push((v[i].name.name, t, false));
                                c_lets(w, v, sc, g, i + 1)
                            },
                        }
                    },
                }
            },
        }
    }
}

/// The type of an expression made of several, or of a module.
#[verifier::opaque]
pub open spec fn c_infer_rest(w: World, x: ExprV, sc: ScopeV, g: Judge) -> CR<ST>
{
    match x.kind {
        ExprKindV::RecordLit(es) => {
            let none = Seq::<(Seq<char>, ST)>::empty();
            match c_entries(w, es, none, sc, g, 0) {
                Err(e) => Err(e),
                Ok(v) => {
                    Ok(ST::Record(v))
                },
            }
        },
        ExprKindV::TupleLit(es) => {
            let none = Seq::<ST>::empty();
            match c_exprs(w, es, none, sc, g, 0) {
                Err(e) => Err(e),
                Ok(ts) => {
                    Ok(ST::Tuple(ts))
                },
            }
        },
        ExprKindV::Conditional { cond, then_, els, is_elsif } => {
            match (g.expr)(*cond, sc) {
                Err(e) => Err(e),
                Ok(ct) => {
                    match required(w, cond.span, ct, ST::Bool) {
                        Err(e) => Err(e),
                        Ok(_u) => {
                            match (g.expr)(*then_, sc) {
                                Err(e) => Err(e),
                                Ok(tt) => {
                                    match (g.expr)(*els, sc) {
                                        Err(e) => Err(e),
                                        Ok(et) => {
                                            match required(w, els.span, et, tt) {
                                                Err(e) => Err(e),
                                                Ok(_u) => {
                                                    if tt == ST::Any {
                                                        Ok(et)
                                                    } else {
                                                        Ok(tt)
                                                    }
                                                },
                                            }
                                        },
                                    }
                                },
                            }
                        },
                    }
                },
            }
        },
        ExprKindV::ModInit(m) => {
            match (g.module)(*m, sc) {
                Err(e) => Err(e),
                Ok(_a) => {
                    Ok(fun_sem(ST::State, ST::Bool))
                },
            }
        },
        ExprKindV::ModTrans(m) => {
            match (g.module)(*m, sc) {
                Err(e) => Err(e),
                Ok(_a) => {
                    Ok(fun_sem(ST::Tuple(seq![ST::State, ST::State]), ST::Bool))
                },
            }
        },
        ExprKindV::Unbounded => {
            Ok(ST::Number)
        },
        _ => {
            Ok(ST::Any)
        },
    }
}

/// The type of a set or of an array given by its elements.
#[verifier::opaque]
pub open spec fn c_infer_set(w: World, x: ExprV, sc: ScopeV, g: Judge) -> CR<ST>
{
    match x.kind {
        ExprKindV::SetPred(sp) => {
            match (g.ty)(sp.ty, sc) {
                Err(e) => Err(e),
                Ok(base) => {
                    match c_predicate(w, *sp, base, sc, g) {
                        Err(e) => Err(e),
                        Ok(_a) => {
                            Ok(fun_sem(base, ST::Bool))
                        },
                    }
                },
            }
        },
        ExprKindV::SetList(es) => {
            match c_elements(w, es, ST::Any, sc, g, 0) {
                Err(e) => Err(e),
                Ok(t) => {
                    Ok(fun_sem(t, ST::Bool))
                },
            }
        },
        ExprKindV::ArrayLit(d, b) => {
            match (g.ty)(d.ty, sc) {
                Err(e) => Err(e),
                Ok(it) => {
                    let sc2 = sc + named(first_only(d.names), it, false);
                    match (g.expr)(*b, sc2) {
                        Err(e) => Err(e),
                        Ok(bt) => {
                            Ok(ST::Array(Box::new(it), Box::new(bt)))
                        },
                    }
                },
            }
        },
        _ => {
            c_infer_rest(w, x, sc, g)
        },
    }
}

/// The type of an expression that binds variables.
#[verifier::opaque]
pub open spec fn c_infer_binder(w: World, x: ExprV, sc: ScopeV, g: Judge) -> CR<ST>
{
    match x.kind {
        ExprKindV::Lambda(ds, b) => {
            let none = Seq::<ST>::empty();
            match c_declare(w, ds, none, sc, g, 0) {
                Err(e) => Err(e),
                Ok(dsc) => {
                    let sc2 = dsc.0;
                    let dom = dsc.1;
                    match (g.expr)(*b, sc2) {
                        Err(e) => Err(e),
                        Ok(bt) => {
                            Ok(ST::Fun(Box::new(packed(dom)), Box::new(bt)))
                        },
                    }
                },
            }
        },
        ExprKindV::Quantified(_q, ds, b) => {
            let none = Seq::<ST>::empty();
            match c_declare(w, ds, none, sc, g, 0) {
                Err(e) => Err(e),
                Ok(dsc) => {
                    let sc2 = dsc.0;
                    match (g.expr)(*b, sc2) {
                        Err(e) => Err(e),
                        Ok(bt) => {
                            match required(w, b.span, bt, ST::Bool) {
                                Err(e) => Err(e),
                                Ok(_u) => {
                                    Ok(ST::Bool)
                                },
                            }
                        },
                    }
                },
            }
        },
        ExprKindV::Let(ds, b) => {
            match c_lets(w, ds, sc, g, 0) {
                Err(e) => Err(e),
                Ok(sc2) => {
                    match (g.expr)(*b, sc2) {
                        Err(e) => Err(e),
                        Ok(bt) => {
                            Ok(bt)
                        },
                    }
                },
            }
        },
        _ => {
            c_infer_set(w, x, sc, g)
        },
    }
}

/// The type of a part or of a changed value.
#[verifier::opaque]
pub open spec fn c_infer_part(w: World, x: ExprV, sc: ScopeV, g: Judge) -> CR<ST>
{
    match x.kind {
        ExprKindV::RecordSelect(r, f) => {
            match (g.expr)(*r, sc) {
                Err(e) => Err(e),
                Ok(tr) => {
                    match tr {
                        ST::Record(fs) => {
                            match field_type(fs, f.name, 0) {
                                Some(t) => {
                                    Ok(t)
                                },
                                None => {
                                    Err(semantic(w, f.span, "Unknown record field \""@ + f.name + "\"."@))
                                },
                            }
                        },
                        ST::Any => {
                            Ok(ST::Any)
                        },
                        other => {
                            Err(semantic(w, r.span, "Record type expected, found "@ + sem_text(other) + "."@))
                        },
                    }
                },
            }
        },
        ExprKindV::TupleSelect(a, j) => {
            match (g.expr)(*a, sc) {
                Err(e) => Err(e),
                Ok(ta) => {
                    match ta {
                        ST::Tuple(ts) => {
                            if 1 <= j <= ts.len() {
                                Ok(ts[j - 1])
                            } else {
                                Err(semantic(w, x.span, "Tuple index out of bounds."@))
                            }
                        },
                        ST::Any => {
                            Ok(ST::Any)
                        },
                        other => {
                            Err(semantic(w, a.span, "Tuple type expected, found "@ + sem_text(other) + "."@))
                        },
                    }
                },
            }
        },
        ExprKindV::Update { target, accesses, value } => {
            match (g.expr)(*target, sc) {
                Err(e) => Err(e),
                Ok(tt) => {
                    match c_accessed(w, accesses, tt, x.span, sc, g, 0) {
                        Err(e) => Err(e),
                        Ok(vt) => {
                            match (g.expr)(*value, sc) {
                                Err(e) => Err(e),
                                Ok(t) => {
                                    match required(w, value.span, t, vt) {
                                        Err(e) => Err(e),
                                        Ok(_u) => {
                                            Ok(tt)
                                        },
                                    }
                                },
                            }
                        },
                    }
                },
            }
        },
        _ => {
            c_infer_binder(w, x, sc, g)
        },
    }
}

/// The type of an expression that applies something.
#[verifier::opaque]
pub open spec fn c_infer_use(w: World, x: ExprV, sc: ScopeV, g: Judge) -> CR<ST>
{
    match x.kind {
        ExprKindV::Unary(op, a) => {
            match (g.expr)(*a, sc) {
                Err(e) => Err(e),
                Ok(t) => {
                    if op == UnOp::Not {
                        match required(w, a.span, t, ST::Bool) {
                            Err(e) => Err(e),
                            Ok(_u) => {
                                Ok(ST::Bool)
                            },
                        }
                    } else {
                        match required(w, a.span, t, ST::Number) {
                            Err(e) => Err(e),
                            Ok(_u) => {
                                Ok(ST::Number)
                            },
                        }
                    }
                },
            }
        },
        ExprKindV::App(f, args) => {
            match (g.expr)(*f, sc) {
                Err(e) => Err(e),
                Ok(ft) => {
                    match c_arguments(w, args, sc, g) {
                        Err(e) => Err(e),
                        Ok(at) => {
                            match ft {
                                ST::Fun(d, r) => {
                                    match required(w, x.span, at, *d) {
                                        Err(e) => Err(e),
                                        Ok(_u) => {
                                            Ok(*r)
                                        },
                                    }
                                },
                                ST::Array(d, r) => {
                                    match required(w, x.span, at, *d) {
                                        Err(e) => Err(e),
                                        Ok(_u) => {
                                            Ok(*r)
                                        },
                                    }
                                },
                                ST::Any => {
                                    Ok(ST::Any)
                                },
                                other => {
                                    Err(semantic(w, f.span, "Function (array) type expected, found "@
                                        + sem_text(other) + "."@))
                                },
                            }
                        },
                    }
                },
            }
        },
        ExprKindV::ArraySelect(a, j) => {
            match (g.expr)(*a, sc) {
                Err(e) => Err(e),
                Ok(ta) => {
                    match (g.expr)(*j, sc) {
                        Err(e) => Err(e),
                        Ok(ti) => {
                            match ta {
                                ST::Array(d, r) => {
                                    match required(w, j.span, ti, *d) {
                                        Err(e) => Err(e),
                                        Ok(_u) => {
                                            Ok(*r)
                                        },
                                    }
                                },
                                ST::Fun(d, r) => {
                                    match required(w, j.span, ti, *d) {
                                        Err(e) => Err(e),
                                        Ok(_u) => {
                                            Ok(*r)
                                        },
                                    }
                                },
                                ST::Any => {
                                    Ok(ST::Any)
                                },
                                other => {
                                    Err(semantic(w, a.span, "Function (array) type expected, found "@
                                        + sem_text(other) + "."@))
                                },
                            }
                        },
                    }
                },
            }
        },
        _ => {
            c_infer_part(w, x, sc, g)
        },
    }
}

/// The type of an expression.
#[verifier::opaque]
pub open spec fn c_infer(w: World, x: ExprV, sc: ScopeV, g: Judge) -> CR<ST>
{
    match x.kind {
        ExprKindV::Name(n) => {
            c_name_type(w, x, n, sc, g)
        },
        ExprKindV::Next(id) => {
            match scope_type(sc, id.name, true) {
                Some(t) => {
                    Ok(t)
                },
                None => {
                    Err(semantic(w, x.span, "Undeclared state variable \""@ + id.name + "\"."@))
                },
            }
        },
        ExprKindV::Numeral(_) => {
            Ok(ST::Number)
        },
        ExprKindV::Float { numer, denom } => {
            Ok(ST::Number)
        },
        ExprKindV::Str(_) => {
            Ok(string_sem())
        },
        ExprKindV::Binary(op, a, b) => {
            c_binary(w, x, op, *a, *b, sc, g)
        },
        _ => {
            c_infer_use(w, x, sc, g)
        },
    }
}

/// The type of a name.
#[verifier::opaque]
pub open spec fn c_name_type(w: World, x: ExprV, n: NameV, sc: ScopeV, g: Judge) -> CR<ST>
{
    match local(sc, n) {
        Some(t) => {
            Ok(t)
        },
        None => {
            match c_lookup(w, n, sc, g) {
                Err(e) => Err(e),
                Ok(found) => {
                    match found.1 {
                        EntryV::Const(t, _v) => {
                            Ok(t)
                        },
                        EntryV::Type(_, _) => {
                            Err(semantic(w, x.span, "Type \""@ + n.id.name + "\" used as an expression."@))
                        },
                        EntryV::Module(_, _, _, _) => {
                            Err(semantic(w, x.span, "Module \""@ + n.id.name + "\" used as an expression."@))
                        },
                        _ => {
                            Err(semantic(w, x.span, "Invalid use of \""@ + n.id.name + "\" in an expression."@))
                        },
                    }
                },
            }
        },
    }
}

/// The type of a binary operation.
#[verifier::opaque]
pub open spec fn c_binary(w: World, x: ExprV, op: BinOp, a: ExprV, b: ExprV, sc: ScopeV, g: Judge) -> CR<ST>
{
    match (g.expr)(a, sc) {
        Err(e) => Err(e),
        Ok(ta) => {
            match (g.expr)(b, sc) {
                Err(e) => Err(e),
                Ok(tb) => {
                    if is_logical(op) {
                        match required(w, a.span, ta, ST::Bool) {
                            Err(e) => Err(e),
                            Ok(_u) => {
                                match required(w, b.span, tb, ST::Bool) {
                                    Err(e) => Err(e),
                                    Ok(_u) => {
                                        Ok(ST::Bool)
                                    },
                                }
                            },
                        }
                    } else {
                        if op == BinOp::Eq || op == BinOp::Neq {
                            match required(w, x.span, tb, ta) {
                                Err(e) => Err(e),
                                Ok(_u) => {
                                    Ok(ST::Bool)
                                },
                            }
                        } else {
                            match required(w, a.span, ta, ST::Number) {
                                Err(e) => Err(e),
                                Ok(_u) => {
                                    match required(w, b.span, tb, ST::Number) {
                                        Err(e) => Err(e),
                                        Ok(_u) => {
                                            if is_order(op) {
                                                Ok(ST::Bool)
                                            } else {
                                                Ok(ST::Number)
                                            }
                                        },
                                    }
                                },
                            }
                        }
                    }
                },
            }
        },
    }
}

/// The type reached by following accesses.
#[verifier::opaque]
pub open spec fn c_accessed(w: World, v: Seq<AccessV>, acc: ST, span: Span, sc: ScopeV, g: Judge, i: int) -> CR<ST>
    decreases v.len() - i,
{
    if i < 0 || i >= v.len() {
        Ok(acc)
    } else {
        match c_access_step(w, v[i], acc, span, sc, g) {
            Err(e) => Err(e),
            Ok(t) => {
                let acc = t;
                c_accessed(w, v, acc, span, sc, g, i + 1)
            },
        }
    }
}

/// The type reached by one access.
#[verifier::opaque]
pub open spec fn c_access_step(w: World, a: AccessV, t: ST, span: Span, sc: ScopeV, g: Judge) -> CR<ST>
{
    if t == ST::Any {
        Ok(ST::Any)
    } else {
        match a {
            AccessV::Array(j) => {
                match index_parts(t) {
                    Some(p) => {
                        match (g.expr)(j, sc) {
                            Err(e) => Err(e),
                            Ok(it) => {
                                match required(w, j.span, it, p.0) {
                                    Err(e) => Err(e),
                                    Ok(_u) => {
                                        Ok(p.1)
                                    },
                                }
                            },
                        }
                    },
                    None => {
                        Err(semantic(w, span, "Invalid access on a value of type "@ + sem_text(t) + "."@))
                    },
                }
            },
            AccessV::Args(es) => {
                match fun_parts(t) {
                    Some(p) => {
                        match c_arguments(w, es, sc, g) {
                            Err(e) => Err(e),
                            Ok(at) => {
                                match required(w, span, at, p.0) {
                                    Err(e) => Err(e),
                                    Ok(_u) => {
                                        Ok(p.1)
                                    },
                                }
                            },
                        }
                    },
                    None => {
                        Err(semantic(w, span, "Invalid access on a value of type "@ + sem_text(t) + "."@))
                    },
                }
            },
            AccessV::Record(f) => {
                match t {
                    ST::Record(fs) => {
                        match field_type(fs, f.name, 0) {
                            Some(r) => {
                                Ok(r)
                            },
                            None => {
                                Err(semantic(w, f.span, "Unknown record field \""@ + f.name + "\"."@))
                            },
                        }
                    },
                    _ => {
                        Err(semantic(w, span, "Invalid access on a value of type "@ + sem_text(t) + "."@))
                    },
                }
            },
            AccessV::Tuple(j) => {
                match t {
                    ST::Tuple(ts) => {
                        if 1 <= j <= ts.len() {
                            Ok(ts[j - 1])
                        } else {
                            Err(semantic(w, span, "Tuple index out of bounds."@))
                        }
                    },
                    _ => {
                        Err(semantic(w, span, "Invalid access on a value of type "@ + sem_text(t) + "."@))
                    },
                }
            },
        }
    }
}

/// What a name stands for, and the context that declares it.
#[verifier::opaque]
pub open spec fn c_lookup(w: World, n: NameV, sc: ScopeV, g: Judge) -> CR<(nat, EntryV)>
{
    match n.ctx {
        Some(cn) => {
            match c_context(w, cn, sc, g) {
                Err(e) => Err(e),
                Ok(id) => {
                    match symbol_at(w, id, n.id.name) {
                        Some(e) => {
                            Ok((id, e))
                        },
                        None => {
                            Err(semantic(w, n.span, "Undeclared identifier \""@ + n.id.name
                                + "\" in context \""@ + cn.name.name + "\"."@))
                        },
                    }
                },
            }
        },
        None => {
            match symbol_at(w, w.here, n.id.name) {
                Some(e) => {
                    Ok((w.here, e))
                },
                None => {
                    match symbol_at(w, 0, n.id.name) {
                        Some(e) => {
                            Ok((0nat, e))
                        },
                        None => {
                            Err(semantic(w, n.span, "Unknown variable \""@ + n.id.name + "\"."@))
                        },
                    }
                },
            }
        },
    }
}

/// The instance that the name of a context stands for.
#[verifier::opaque]
pub open spec fn c_context(w: World, cn: ContextNameV, sc: ScopeV, g: Judge) -> CR<nat>
{
    match alias(w, cn) {
        Some(id) => {
            Ok(id)
        },
        None => {
            match source_at(w.lib, cn.name.name) {
                None => {
                    Err(CEV::Missing(cn.name.name))
                },
                Some(d) => {
                    let fs = formals(w.lib[d as int].params, 0, Seq::empty());
                    if fs.len() != cn.actuals.len() {
                        Err(semantic(w, cn.span, "Wrong number of actual parameters."@))
                    } else {
                        let start = Seq::<(Seq<char>, BindingV)>::empty();
                        match c_actuals(w, cn.actuals, fs, start, sc, g, 0) {
                            Err(e) => Err(e),
                            Ok(bd) => {
                                c_found(w, cn, d, fs, bd, sc, g)
                            },
                        }
                    }
                },
            }
        },
    }
}

/// The instance with the given actual parameters.
#[verifier::opaque]
pub open spec fn c_found(w: World, cn: ContextNameV, d: nat, fs: Seq<(Seq<char>, bool)>, bd: Seq<(Seq<char>, BindingV)>, sc: ScopeV, g: Judge) -> CR<nat>
{
    let key = key_text(cn.name.name, parts_of(bd));
    match instance_at(w.insts, key, 1) {
        None => {
            Err(CEV::Need(d, key, bd))
        },
        Some(id) => {
            if w.insts[id as int].symbols.len() == 0 && w.lib[d as int].decls.len() > 0 {
                if w.insts[id as int].open {
                    Err(cyclic(w, id, d))
                } else {
                    Err(CEV::Need(d, key, bd))
                }
            } else {
                match c_matched(w, cn.actuals, fs, id, sc, g, 0) {
                    Err(e) => Err(e),
                    Ok(_a) => {
                        Ok(id)
                    },
                }
            }
        },
    }
}

/// The actual parameters one by one.
#[verifier::opaque]
pub open spec fn c_actuals(w: World, v: Seq<ActualV>, fs: Seq<(Seq<char>, bool)>, acc: Seq<(Seq<char>, BindingV)>, sc: ScopeV, g: Judge, i: int) -> CR<Seq<(Seq<char>, BindingV)>>
    decreases v.len() - i,
{
    if i < 0 || i >= v.len() {
        Ok(acc)
    } else {
        if i >= fs.len() {
            Ok(acc)
        } else {
            match c_actual(w, v[i], fs[i].1, sc, g) {
                Err(e) => Err(e),
                Ok(one) => {
                    let acc = acc.push((fs[i].0, one));
                    c_actuals(w, v, fs, acc, sc, g, i + 1)
                },
            }
        }
    }
}

/// One actual parameter: its text and its type.
#[verifier::opaque]
pub open spec fn c_actual(w: World, a: ActualV, is_type: bool, sc: ScopeV, g: Judge) -> CR<BindingV>
{
    match a {
        ActualV::Type(t) => {
            c_given_type(w, t, is_type, sc, g)
        },
        ActualV::Expr(e) => {
            if is_type {
                c_actual_type(w, e, sc, g)
            } else {
                c_given_value(w, e, sc, g)
            }
        },
    }
}

/// A type as an actual parameter.
#[verifier::opaque]
pub open spec fn c_given_type(w: World, t: TypeV, is_type: bool, sc: ScopeV, g: Judge) -> CR<BindingV>
{
    if !is_type {
        Err(semantic(w, t.span, "Expression expected."@))
    } else {
        match (g.ty)(t, sc) {
            Err(e) => Err(e),
            Ok(s) => {
                Ok(BindingV::Type(s, t))
            },
        }
    }
}

/// A value as an actual parameter.
#[verifier::opaque]
pub open spec fn c_given_value(w: World, e: ExprV, sc: ScopeV, g: Judge) -> CR<BindingV>
{
    match (g.expr)(e, sc) {
        Err(e) => Err(e),
        Ok(_s) => {
            Ok(BindingV::Expr(e))
        },
    }
}

/// A name as an actual type.
#[verifier::opaque]
pub open spec fn c_actual_type(w: World, e: ExprV, sc: ScopeV, g: Judge) -> CR<BindingV>
{
    match e.kind {
        ExprKindV::Name(n) => {
            match (g.name)(n, sc) {
                Err(e) => Err(e),
                Ok(found) => {
                    match found.1 {
                        EntryV::Type(s, _d) => {
                            Ok(BindingV::Type(s, TypeV { kind: TypeKindV::Name(n), span: e.span }))
                        },
                        _ => {
                            Err(semantic(w, e.span, "Unknown type \""@ + n.id.name + "\"."@))
                        },
                    }
                },
            }
        },
        _ => {
            Err(semantic(w, e.span, "Type expected."@))
        },
    }
}

/// The values given for parameters have the declared types.
#[verifier::opaque]
pub open spec fn c_matched(w: World, v: Seq<ActualV>, fs: Seq<(Seq<char>, bool)>, id: nat, sc: ScopeV, g: Judge, i: int) -> CR<()>
    decreases v.len() - i,
{
    if i < 0 || i >= v.len() {
        Ok(())
    } else {
        if i >= fs.len() {
            Ok(())
        } else {
            match c_matched_one(w, v[i], fs[i].0, fs[i].1, id, sc, g) {
                Err(e) => Err(e),
                Ok(_a) => {
                    c_matched(w, v, fs, id, sc, g, i + 1)
                },
            }
        }
    }
}

/// A value given for a parameter has the declared type.
#[verifier::opaque]
pub open spec fn c_matched_one(w: World, a: ActualV, f: Seq<char>, is_type: bool, id: nat, sc: ScopeV, g: Judge) -> CR<()>
{
    match a {
        ActualV::Type(_) => {
            Ok(())
        },
        ActualV::Expr(e) => {
            if is_type {
                Ok(())
            } else {
                match symbol_at(w, id, f) {
                    Some(EntryV::Const(s, _v)) => {
                        match (g.expr)(e, sc) {
                            Err(e) => Err(e),
                            Ok(t) => {
                                required(w, e.span, t, s)
                            },
                        }
                    },
                    _ => {
                        Ok(())
                    },
                }
            }
        },
    }
}

/// The state variables of a module.
#[verifier::opaque]
pub open spec fn c_module_kind(w: World, x: ModuleV, sc: ScopeV, g: Judge) -> CR<Seq<VarV>>
{
    match x.kind {
        ModuleKindV::Base(b) => {
            c_base(w, b, sc, g)
        },
        ModuleKindV::Instance(n, args) => {
            match c_lookup(w, n, sc, g) {
                Err(e) => Err(e),
                Ok(found) => {
                    match found.1 {
                        EntryV::Module(ps, vs, _m, _d) => {
                            if ps.len() != args.len() {
                                Err(semantic(w, x.span, count_text(n.id.name, ps.len() as int, args.len() as int)))
                            } else {
                                match c_module_args(w, args, ps, sc, g, 0) {
                                    Err(e) => Err(e),
                                    Ok(_a) => {
                                        Ok(vs)
                                    },
                                }
                            }
                        },
                        _ => {
                            Err(semantic(w, x.span, "\""@ + n.id.name + "\" is not a module."@))
                        },
                    }
                },
            }
        },
        ModuleKindV::Sync(a, b) => {
            match (g.module)(*a, sc) {
                Err(e) => Err(e),
                Ok(va) => {
                    match (g.module)(*b, sc) {
                        Err(e) => Err(e),
                        Ok(vb) => {
                            merged(w, x.span, va, vb, 0)
                        },
                    }
                },
            }
        },
        ModuleKindV::Async(a, b) => {
            match (g.module)(*a, sc) {
                Err(e) => Err(e),
                Ok(va) => {
                    match (g.module)(*b, sc) {
                        Err(e) => Err(e),
                        Ok(vb) => {
                            merged(w, x.span, va, vb, 0)
                        },
                    }
                },
            }
        },
        ModuleKindV::Observe(a, b) => {
            match (g.module)(*a, sc) {
                Err(e) => Err(e),
                Ok(va) => {
                    match (g.module)(*b, sc) {
                        Err(e) => Err(e),
                        Ok(vb) => {
                            merged(w, x.span, va, vb, 0)
                        },
                    }
                },
            }
        },
        ModuleKindV::MultiSync(d, m) => {
            c_multi(w, *d, *m, sc, g)
        },
        ModuleKindV::MultiAsync(d, m) => {
            c_multi(w, *d, *m, sc, g)
        },
        ModuleKindV::Hide(ids, m) => {
            match (g.module)(*m, sc) {
                Err(e) => Err(e),
                Ok(vs) => {
                    reclassed(w, ids, vs, VarClass::Local, 0)
                },
            }
        },
        ModuleKindV::NewOutput(ids, m) => {
            match (g.module)(*m, sc) {
                Err(e) => Err(e),
                Ok(vs) => {
                    reclassed(w, ids, vs, VarClass::Output, 0)
                },
            }
        },
        ModuleKindV::Rename(rs, m) => {
            match (g.module)(*m, sc) {
                Err(e) => Err(e),
                Ok(vs) => {
                    c_renames(w, rs, vs, sc, g, 0)
                },
            }
        },
        ModuleKindV::With(ds, m) => {
            let none = Seq::<VarV>::empty();
            match c_added(w, ds, none, sc, g, 0) {
                Err(e) => Err(e),
                Ok(dsc) => {
                    let sc2 = dsc.0;
                    match (g.module)(*m, sc2) {
                        Err(e) => Err(e),
                        Ok(vs) => {
                            merged(w, x.span, dsc.1, vs, 0)
                        },
                    }
                },
            }
        },
    }
}

/// The state variables of a module composed with itself.
#[verifier::opaque]
pub open spec fn c_multi(w: World, d: VarDeclV, m: ModuleV, sc: ScopeV, g: Judge) -> CR<Seq<VarV>>
{
    match (g.ty)(d.ty, sc) {
        Err(e) => Err(e),
        Ok(it) => {
            let sc2 = sc + named(first_only(d.names), it, false);
            match (g.module)(m, sc2) {
                Err(e) => Err(e),
                Ok(vs) => {
                    Ok(arrayed(vs, it))
                },
            }
        },
    }
}

/// The actual parameters of a module have the declared types.
#[verifier::opaque]
pub open spec fn c_module_args(w: World, v: Seq<ExprV>, ps: Seq<(Seq<char>, ST)>, sc: ScopeV, g: Judge, i: int) -> CR<()>
    decreases v.len() - i,
{
    if i < 0 || i >= v.len() {
        Ok(())
    } else {
        if i >= ps.len() {
            Ok(())
        } else {
            match (g.expr)(v[i], sc) {
                Err(e) => Err(e),
                Ok(t) => {
                    match required(w, v[i].span, t, ps[i].1) {
                        Err(e) => Err(e),
                        Ok(_u) => {
                            c_module_args(w, v, ps, sc, g, i + 1)
                        },
                    }
                },
            }
        }
    }
}

/// Renamings one by one.
#[verifier::opaque]
pub open spec fn c_renames(w: World, v: Seq<(LhsV, LhsV)>, acc: Seq<VarV>, sc: ScopeV, g: Judge, i: int) -> CR<Seq<VarV>>
    decreases v.len() - i,
{
    if i < 0 || i >= v.len() {
        Ok(acc)
    } else {
        match c_rename_one(w, v[i].0, v[i].1, acc, sc, g) {
            Err(e) => Err(e),
            Ok(t) => {
                let acc = t;
                c_renames(w, v, acc, sc, g, i + 1)
            },
        }
    }
}

/// One renaming.
#[verifier::opaque]
pub open spec fn c_rename_one(w: World, a: LhsV, b: LhsV, vs: Seq<VarV>, sc: ScopeV, g: Judge) -> CR<Seq<VarV>>
{
    match var_at(vs, a.base.name, 0) {
        None => {
            Err(semantic(w, a.span, "Undeclared state variable \""@ + a.base.name + "\"."@))
        },
        Some(p) => {
            if b.accesses.len() == 0 {
                Ok(vs.remove(p as int).push((b.base.name, vs[p as int].1, vs[p as int].2)))
            } else {
                match scope_type(sc, b.base.name, false) {
                    None => {
                        Err(semantic(w, b.span, "Undeclared state variable \""@ + b.base.name + "\"."@))
                    },
                    Some(bt) => {
                        match c_accessed(w, b.accesses, bt, b.span, sc, g, 0) {
                            Err(e) => Err(e),
                            Ok(t) => {
                                match required(w, b.span, vs[p as int].2, t) {
                                    Err(e) => Err(e),
                                    Ok(_u) => {
                                        Ok(replaced(vs, p as int, b.base.name, bt))
                                    },
                                }
                            },
                        }
                    },
                }
            }
        },
    }
}

/// Added variables, in scope.
#[verifier::opaque]
pub open spec fn c_added(w: World, v: Seq<NewVarDeclV>, acc: Seq<VarV>, sc: ScopeV, g: Judge, i: int) -> CR<(ScopeV, Seq<VarV>)>
    decreases v.len() - i,
{
    if i < 0 || i >= v.len() {
        Ok((sc, acc))
    } else {
        match c_state_decls(w, v[i].decls, v[i].class, acc, sc, g, 0) {
            Err(e) => Err(e),
            Ok(one) => {
                let sc = one.0;
                let acc = one.1;
                c_added(w, v, acc, sc, g, i + 1)
            },
        }
    }
}

/// Variables of one class, in scope.
#[verifier::opaque]
pub open spec fn c_state_decls(w: World, v: Seq<VarDeclV>, class: VarClass, acc: Seq<VarV>, sc: ScopeV, g: Judge, i: int) -> CR<(ScopeV, Seq<VarV>)>
    decreases v.len() - i,
{
    if i < 0 || i >= v.len() {
        Ok((sc, acc))
    } else {
        match (g.ty)(v[i].ty, sc) {
            Err(e) => Err(e),
            Ok(t) => {
                let acc = acc + state_named(v[i].names, class, t);
                let sc = sc + named(v[i].names, t, true);
                c_state_decls(w, v, class, acc, sc, g, i + 1)
            },
        }
    }
}

/// A base module.
#[verifier::opaque]
pub open spec fn c_base(w: World, x: BaseModuleV, sc: ScopeV, g: Judge) -> CR<Seq<VarV>>
{
    let none = Seq::<VarV>::empty();
    match c_variables(w, x.decls, none, sc, g, 0) {
        Err(e) => Err(e),
        Ok(vs) => {
            let sc2 = sc + state_binds(vs);
            match c_sections(w, x.decls, vs, sc2, g, 0) {
                Err(e) => Err(e),
                Ok(_a) => {
                    Ok(vs)
                },
            }
        },
    }
}

/// The declared variables.
#[verifier::opaque]
pub open spec fn c_variables(w: World, v: Seq<BaseDeclV>, acc: Seq<VarV>, sc: ScopeV, g: Judge, i: int) -> CR<Seq<VarV>>
    decreases v.len() - i,
{
    if i < 0 || i >= v.len() {
        Ok(acc)
    } else {
        match v[i] {
            BaseDeclV::Vars(c, ds) => {
                match c_groups(w, ds, c, acc, sc, g, 0) {
                    Err(e) => Err(e),
                    Ok(t) => {
                        let acc = t;
                        c_variables(w, v, acc, sc, g, i + 1)
                    },
                }
            },
            _ => {
                c_variables(w, v, acc, sc, g, i + 1)
            },
        }
    }
}

/// Variables of one class.
#[verifier::opaque]
pub open spec fn c_groups(w: World, v: Seq<VarDeclV>, class: VarClass, acc: Seq<VarV>, sc: ScopeV, g: Judge, i: int) -> CR<Seq<VarV>>
    decreases v.len() - i,
{
    if i < 0 || i >= v.len() {
        Ok(acc)
    } else {
        match (g.ty)(v[i].ty, sc) {
            Err(e) => Err(e),
            Ok(t) => {
                match declared(w, v[i].names, class, t, acc, 0) {
                    Err(e) => Err(e),
                    Ok(r) => {
                        let acc = r;
                        c_groups(w, v, class, acc, sc, g, i + 1)
                    },
                }
            },
        }
    }
}

/// The sections.
#[verifier::opaque]
pub open spec fn c_sections(w: World, v: Seq<BaseDeclV>, vs: Seq<VarV>, sc: ScopeV, g: Judge, i: int) -> CR<()>
    decreases v.len() - i,
{
    if i < 0 || i >= v.len() {
        Ok(())
    } else {
        match v[i] {
            BaseDeclV::Vars(_, _) => {
                c_sections(w, v, vs, sc, g, i + 1)
            },
            BaseDeclV::Definition(ds) => {
                match c_defs(w, ds, vs, false, sc, g, 0) {
                    Err(e) => Err(e),
                    Ok(_a) => {
                        c_sections(w, v, vs, sc, g, i + 1)
                    },
                }
            },
            BaseDeclV::Initialization(ds) => {
                match c_items(w, ds, vs, false, sc, g, 0) {
                    Err(e) => Err(e),
                    Ok(_a) => {
                        c_sections(w, v, vs, sc, g, i + 1)
                    },
                }
            },
            BaseDeclV::Transition(ds) => {
                match c_items(w, ds, vs, true, sc, g, 0) {
                    Err(e) => Err(e),
                    Ok(_a) => {
                        c_sections(w, v, vs, sc, g, i + 1)
                    },
                }
            },
        }
    }
}

/// Definitions.
#[verifier::opaque]
pub open spec fn c_defs(w: World, v: Seq<DefinitionV>, vs: Seq<VarV>, next: bool, sc: ScopeV, g: Judge, i: int) -> CR<()>
    decreases v.len() - i,
{
    if i < 0 || i >= v.len() {
        Ok(())
    } else {
        match (g.def)(v[i], vs, next, sc) {
            Err(e) => Err(e),
            Ok(_a) => {
                c_defs(w, v, vs, next, sc, g, i + 1)
            },
        }
    }
}

/// Commands.
#[verifier::opaque]
pub open spec fn c_cmds(w: World, v: Seq<SomeCommandV>, vs: Seq<VarV>, next: bool, sc: ScopeV, g: Judge, i: int) -> CR<()>
    decreases v.len() - i,
{
    if i < 0 || i >= v.len() {
        Ok(())
    } else {
        match (g.cmd)(v[i], vs, next, sc) {
            Err(e) => Err(e),
            Ok(_a) => {
                c_cmds(w, v, vs, next, sc, g, i + 1)
            },
        }
    }
}

/// Definitions and commands.
#[verifier::opaque]
pub open spec fn c_items(w: World, v: Seq<DefOrCommandV>, vs: Seq<VarV>, next: bool, sc: ScopeV, g: Judge, i: int) -> CR<()>
    decreases v.len() - i,
{
    if i < 0 || i >= v.len() {
        Ok(())
    } else {
        match v[i] {
            DefOrCommandV::Def(d) => {
                match (g.def)(d, vs, next, sc) {
                    Err(e) => Err(e),
                    Ok(_a) => {
                        c_items(w, v, vs, next, sc, g, i + 1)
                    },
                }
            },
            DefOrCommandV::Commands(cs, _s) => {
                match c_cmds(w, cs, vs, next, sc, g, 0) {
                    Err(e) => Err(e),
                    Ok(_a) => {
                        c_items(w, v, vs, next, sc, g, i + 1)
                    },
                }
            },
        }
    }
}

/// A definition.
#[verifier::opaque]
pub open spec fn c_def_body(w: World, x: DefinitionV, vs: Seq<VarV>, next: bool, sc: ScopeV, g: Judge) -> CR<()>
{
    match x {
        DefinitionV::Forall(ds, defs) => {
            let none = Seq::<ST>::empty();
            match c_declare(w, ds, none, sc, g, 0) {
                Err(e) => Err(e),
                Ok(dsc) => {
                    let sc2 = dsc.0;
                    match c_defs(w, defs, vs, next, sc2, g, 0) {
                        Err(e) => Err(e),
                        Ok(_a) => {
                            Ok(())
                        },
                    }
                },
            }
        },
        DefinitionV::Simple(s) => {
            c_simple(w, s.lhs, s.rhs, vs, next, sc, g)
        },
    }
}

/// A definition of one left side.
#[verifier::opaque]
pub open spec fn c_simple(w: World, l: LhsV, r: RhsV, vs: Seq<VarV>, next: bool, sc: ScopeV, g: Judge) -> CR<()>
{
    match var_at(vs, l.base.name, 0) {
        None => {
            Err(semantic(w, l.span, "Undeclared state variable \""@ + l.base.name + "\"."@))
        },
        Some(p) => {
            if vs[p as int].1 == VarClass::Input {
                Err(semantic(w, l.span, "Input variable \""@ + l.base.name + "\" cannot be assigned."@))
            } else {
                if l.next && !next {
                    Err(semantic(w, l.span, "Next-state variables are not allowed here."@))
                } else {
                    c_assigned(w, l, r, vs[p as int].2, sc, g)
                }
            }
        },
    }
}

/// The right side of a definition agrees with its left side.
#[verifier::opaque]
pub open spec fn c_assigned(w: World, l: LhsV, r: RhsV, t: ST, sc: ScopeV, g: Judge) -> CR<()>
{
    match c_accessed(w, l.accesses, t, l.span, sc, g, 0) {
        Err(e) => Err(e),
        Ok(lt) => {
            c_agreeing(w, r, lt, sc, g)
        },
    }
}

/// The right side of a definition agrees with a type.
#[verifier::opaque]
pub open spec fn c_agreeing(w: World, r: RhsV, lt: ST, sc: ScopeV, g: Judge) -> CR<()>
{
    c_agreeing_with(w, rhs_value(r).0, rhs_value(r).1, lt, sc, g)
}

/// An expression agrees with a type, or with that of sets of its values.
#[verifier::opaque]
pub open spec fn c_agreeing_with(w: World, among: bool, e: ExprV, lt: ST, sc: ScopeV, g: Judge) -> CR<()>
{
    match (g.expr)(e, sc) {
        Err(f) => Err(f),
        Ok(et) => if among {
            required(w, e.span, et, fun_sem(lt, ST::Bool))
        } else {
            required(w, e.span, et, lt)
        },
    }
}

/// A command.
#[verifier::opaque]
pub open spec fn c_cmd_body(w: World, x: SomeCommandV, vs: Seq<VarV>, next: bool, sc: ScopeV, g: Judge) -> CR<()>
{
    match x {
        SomeCommandV::Multi(ds, c, _s) => {
            let none = Seq::<ST>::empty();
            match c_declare(w, ds, none, sc, g, 0) {
                Err(e) => Err(e),
                Ok(dsc) => {
                    let sc2 = dsc.0;
                    match (g.cmd)(*c, vs, next, sc2) {
                        Err(e) => Err(e),
                        Ok(_a) => {
                            Ok(())
                        },
                    }
                },
            }
        },
        SomeCommandV::Guarded(gc) => {
            c_guarded(w, gc, vs, next, sc, g)
        },
    }
}

/// A guarded command.
#[verifier::opaque]
pub open spec fn c_guarded(w: World, x: GuardedCommandV, vs: Seq<VarV>, next: bool, sc: ScopeV, g: Judge) -> CR<()>
{
    match c_guard(w, x.guard, sc, g) {
        Err(e) => Err(e),
        Ok(_a) => {
            c_defs(w, x.assignments, vs, next, sc, g, 0)
        },
    }
}

/// The guard of a command.
#[verifier::opaque]
pub open spec fn c_guard(w: World, x: Option<ExprV>, sc: ScopeV, g: Judge) -> CR<()>
{
    match x {
        Some(e) => {
            match (g.expr)(e, sc) {
                Err(e) => Err(e),
                Ok(t) => {
                    required(w, e.span, t, ST::Bool)
                },
            }
        },
        None => {
            Ok(())
        },
    }
}

/// The names and types of declared variables, none of them in scope of another.
#[verifier::opaque]
pub open spec fn c_fields_of(w: World, v: Seq<VarDeclV>, acc: Seq<(Seq<char>, ST)>, sc: ScopeV, g: Judge, i: int) -> CR<Seq<(Seq<char>, ST)>>
    decreases v.len() - i,
{
    if i < 0 || i >= v.len() {
        Ok(acc)
    } else {
        match (g.ty)(v[i].ty, sc) {
            Err(e) => Err(e),
            Ok(t) => {
                let acc = acc + fields_named(v[i].names, t);
                c_fields_of(w, v, acc, sc, g, i + 1)
            },
        }
    }
}

/// The names and types of parameters, which come into scope.
#[verifier::opaque]
pub open spec fn c_signature(w: World, v: Seq<VarDeclV>, acc: Seq<(Seq<char>, ST)>, sc: ScopeV, g: Judge, i: int) -> CR<(ScopeV, Seq<(Seq<char>, ST)>)>
    decreases v.len() - i,
{
    if i < 0 || i >= v.len() {
        Ok((sc, acc))
    } else {
        match (g.ty)(v[i].ty, sc) {
            Err(e) => Err(e),
            Ok(t) => {
                let acc = acc + fields_named(v[i].names, t);
                let sc = sc + named(v[i].names, t, false);
                c_signature(w, v, acc, sc, g, i + 1)
            },
        }
    }
}

/// What a parameter of a context declares.
#[verifier::opaque]
pub open spec fn c_param(w: World, p: CtxParamV, key: Seq<char>, types: Seq<(Seq<char>, BindingV)>, sc: ScopeV, g: Judge) -> CR<SymbolsV>
{
    match p {
        CtxParamV::Types(ids) => {
            Ok(type_params(ids, key, types))
        },
        CtxParamV::Vars(ids, ty) => {
            match (g.ty)(ty, sc) {
                Err(e) => Err(e),
                Ok(t) => {
                    Ok(consts(ids, t))
                },
            }
        },
    }
}

/// A step of the declaration of a type.
#[verifier::opaque]
pub open spec fn c_type_decl(w: World, name: IdentV, def: Option<TypeDefV>, key: Seq<char>, j: nat, sc: ScopeV, g: Judge) -> CR<SymbolsV>
{
    match def {
        None => {
            Ok(seq![(name.name, EntryV::Type(ST::Uninterp(Tid { ctx: key, name: name.name }), None))])
        },
        Some(TypeDefV::Type(t)) => {
            match (g.ty)(t, sc) {
                Err(e) => Err(e),
                Ok(s) => {
                    Ok(seq![(name.name, EntryV::Type(s, def))])
                },
            }
        },
        Some(TypeDefV::Scalar(ids)) => {
            let s = ST::Scalar(Tid { ctx: key, name: name.name });
            Ok(seq![(name.name, EntryV::Type(s, def))] + consts(ids, s))
        },
        Some(TypeDefV::Datatype(cs)) => {
            let s = ST::Datatype(Tid { ctx: key, name: name.name });
            if j == 0 || j > cs.len() {
                Ok(seq![(name.name, EntryV::Type(s, def))])
            } else {
                c_constructor(w, cs[j - 1], s, sc, g)
            }
        },
        Some(TypeDefV::Scalarset(e)) => {
            c_sized(w, name, e, def, key, sc, g)
        },
        Some(TypeDefV::Ringset(e)) => {
            c_sized(w, name, e, def, key, sc, g)
        },
    }
}

/// What a constructor of a datatype declares.
#[verifier::opaque]
pub open spec fn c_constructor(w: World, c: ConstructorV, s: ST, sc: ScopeV, g: Judge) -> CR<SymbolsV>
{
    let none = Seq::<(Seq<char>, ST)>::empty();
    match c_fields_of(w, c.accessors, none, sc, g, 0) {
        Err(e) => Err(e),
        Ok(fs) => {
            Ok(constructed(c.name.name, fs, s))
        },
    }
}

/// A type given by its size.
#[verifier::opaque]
pub open spec fn c_sized(w: World, name: IdentV, e: ExprV, def: Option<TypeDefV>, key: Seq<char>, sc: ScopeV, g: Judge) -> CR<SymbolsV>
{
    match (g.expr)(e, sc) {
        Err(e) => Err(e),
        Ok(t) => {
            match required(w, e.span, t, ST::Number) {
                Err(e) => Err(e),
                Ok(_u) => {
                    Ok(seq![(name.name, EntryV::Type(ST::Scalar(Tid { ctx: key, name: name.name }), def))])
                },
            }
        },
    }
}

/// The type of a declared constant.
#[verifier::opaque]
pub open spec fn c_const_head(w: World, name: IdentV, args: Seq<VarDeclV>, ty: TypeV, value: Option<ExprV>, sc: ScopeV, g: Judge) -> CR<SymbolsV>
{
    let none = Seq::<(Seq<char>, ST)>::empty();
    match (g.ty)(ty, sc) {
        Err(e) => Err(e),
        Ok(rng) => {
            if args.len() == 0 {
                Ok(seq![(name.name, EntryV::Const(rng, value))])
            } else {
                match c_fields_of(w, args, none, sc, g, 0) {
                    Err(e) => Err(e),
                    Ok(fs) => {
                        Ok(seq![(name.name, EntryV::Const(fun_sem(packed(types_of(fs)), rng), lambda_of(args, value)))])
                    },
                }
            }
        },
    }
}

/// The value of a declared constant has its type.
#[verifier::opaque]
pub open spec fn c_const_value(w: World, name: IdentV, args: Seq<VarDeclV>, v: ExprV, sc: ScopeV, g: Judge) -> CR<SymbolsV>
{
    let none = Seq::<ST>::empty();
    match c_declare(w, args, none, sc, g, 0) {
        Err(e) => Err(e),
        Ok(dsc) => {
            let sc2 = dsc.0;
            match (g.expr)(v, sc2) {
                Err(e) => Err(e),
                Ok(vt) => {
                    let rng = range_at(w, name.name, args.len() == 0);
                    match required(w, v.span, vt, rng) {
                        Err(e) => Err(e),
                        Ok(_u) => {
                            Ok(Seq::empty())
                        },
                    }
                },
            }
        },
    }
}

/// The declaration of a module.
#[verifier::opaque]
pub open spec fn c_module_decl(w: World, name: IdentV, ps: Seq<VarDeclV>, m: ModuleV, sc: ScopeV, g: Judge) -> CR<SymbolsV>
{
    let none = Seq::<(Seq<char>, ST)>::empty();
    match c_signature(w, ps, none, sc, g, 0) {
        Err(e) => Err(e),
        Ok(dsc) => {
            let sc2 = dsc.0;
            match (g.module)(m, sc2) {
                Err(e) => Err(e),
                Ok(vs) => {
                    Ok(seq![(name.name, EntryV::Module(dsc.1, vs, m, ps))])
                },
            }
        },
    }
}

/// What an assertion claims.
#[verifier::opaque]
pub open spec fn c_assertion(w: World, x: AssertionExprV, sc: ScopeV, g: Judge) -> CR<()>
{
    match x {
        AssertionExprV::Models { module, formula } => {
            match (g.module)(module, sc) {
                Err(e) => Err(e),
                Ok(vs) => {
                    let sc2 = sc + state_binds(vs);
                    match (g.expr)(formula, sc2) {
                        Err(e) => Err(e),
                        Ok(t) => {
                            required(w, formula.span, t, ST::Bool)
                        },
                    }
                },
            }
        },
        AssertionExprV::Implements { concrete, abstract_ } => {
            match (g.module)(concrete, sc) {
                Err(e) => Err(e),
                Ok(_a) => {
                    match (g.module)(abstract_, sc) {
                        Err(e) => Err(e),
                        Ok(_b) => {
                            Ok(())
                        },
                    }
                },
            }
        },
    }
}

/// A step of a declaration: the entries that it adds.
#[verifier::opaque]
pub open spec fn c_decl(w: World, d: DeclV, key: Seq<char>, j: nat, sc: ScopeV, g: Judge) -> CR<SymbolsV>
{
    match d {
        DeclV::Type { name, def } => {
            c_type_decl(w, name, def, key, j, sc, g)
        },
        DeclV::Constant { name, args, ty, value } => {
            if j == 0 {
                c_const_head(w, name, args, ty, value, sc, g)
            } else {
                match value {
                    Some(v) => {
                        c_const_value(w, name, args, v, sc, g)
                    },
                    None => {
                        Ok(Seq::empty())
                    },
                }
            }
        },
        DeclV::Context { name, ctx } => {
            match c_context(w, ctx, sc, g) {
                Err(e) => Err(e),
                Ok(id) => {
                    Ok(seq![(name.name, EntryV::Ctx(id))])
                },
            }
        },
        DeclV::Module { name, params, body } => {
            c_module_decl(w, name, params, body, sc, g)
        },
        DeclV::Assertion { name, form, body } => {
            match c_assertion(w, body, sc, g) {
                Err(e) => Err(e),
                Ok(_a) => {
                    Ok(seq![(name.name, EntryV::Assertion(form, body))])
                },
            }
        },
        DeclV::Import { ctx, renames } => {
            match c_context(w, ctx, sc, g) {
                Err(e) => Err(e),
                Ok(id) => {
                    Ok(renamed(symbols_of(w, id), renames))
                },
            }
        },
    }
}

/// The judgement of syntax of nesting depth up to `k`.
pub closed spec fn judge(w: World, k: nat) -> Judge
    decreases k,
{
    if k == 0 {
        Judge {
            name: |n: NameV, sc: ScopeV| Err(CEV::Deep),
            expr: |x: ExprV, sc: ScopeV| Err(CEV::Deep),
            ty: |x: TypeV, sc: ScopeV| Err(CEV::Deep),
            module: |x: ModuleV, sc: ScopeV| Err(CEV::Deep),
            def: |x: DefinitionV, vs: Seq<VarV>, next: bool, sc: ScopeV| Err(CEV::Deep),
            cmd: |x: SomeCommandV, vs: Seq<VarV>, next: bool, sc: ScopeV| Err(CEV::Deep),
        }
    } else {
        let g = judge(w, (k - 1) as nat);
        Judge {
            name: |n: NameV, sc: ScopeV| c_lookup(w, n, sc, g),
            expr: |x: ExprV, sc: ScopeV| c_infer(w, x, sc, g),
            ty: |x: TypeV, sc: ScopeV| c_type_kind(w, x, sc, g),
            module: |x: ModuleV, sc: ScopeV| c_module_kind(w, x, sc, g),
            def: |x: DefinitionV, vs: Seq<VarV>, next: bool, sc: ScopeV| c_def_body(w, x, vs, next, sc, g),
            cmd: |x: SomeCommandV, vs: Seq<VarV>, next: bool, sc: ScopeV| c_cmd_body(w, x, vs, next, sc, g),
        }
    }
}

pub proof fn judge_rules(w: World, k: nat)
    ensures
        k == 0 ==> forall|n: NameV, sc: ScopeV| #[trigger] (judge(w, k).name)(n, sc)
            == Err::<(nat, EntryV), CEV>(CEV::Deep),
        k == 0 ==> forall|n: ExprV, sc: ScopeV| #[trigger] (judge(w, k).expr)(n, sc) == Err::<ST, CEV>(CEV::Deep),
        k == 0 ==> forall|n: TypeV, sc: ScopeV| #[trigger] (judge(w, k).ty)(n, sc) == Err::<ST, CEV>(CEV::Deep),
        k == 0 ==> forall|n: ModuleV, sc: ScopeV| #[trigger] (judge(w, k).module)(n, sc)
            == Err::<Seq<VarV>, CEV>(CEV::Deep),
        k == 0 ==> forall|n: DefinitionV, vs: Seq<VarV>, b: bool, sc: ScopeV| #[trigger]
            (judge(w, k).def)(n, vs, b, sc) == Err::<(), CEV>(CEV::Deep),
        k == 0 ==> forall|n: SomeCommandV, vs: Seq<VarV>, b: bool, sc: ScopeV| #[trigger]
            (judge(w, k).cmd)(n, vs, b, sc) == Err::<(), CEV>(CEV::Deep),
        k > 0 ==> forall|n: NameV, sc: ScopeV| #[trigger] (judge(w, k).name)(n, sc)
            == c_lookup(w, n, sc, judge(w, (k - 1) as nat)),
        k > 0 ==> forall|n: ExprV, sc: ScopeV| #[trigger] (judge(w, k).expr)(n, sc)
            == c_infer(w, n, sc, judge(w, (k - 1) as nat)),
        k > 0 ==> forall|n: TypeV, sc: ScopeV| #[trigger] (judge(w, k).ty)(n, sc)
            == c_type_kind(w, n, sc, judge(w, (k - 1) as nat)),
        k > 0 ==> forall|n: ModuleV, sc: ScopeV| #[trigger] (judge(w, k).module)(n, sc)
            == c_module_kind(w, n, sc, judge(w, (k - 1) as nat)),
        k > 0 ==> forall|n: DefinitionV, vs: Seq<VarV>, b: bool, sc: ScopeV| #[trigger]
            (judge(w, k).def)(n, vs, b, sc) == c_def_body(w, n, vs, b, sc, judge(w, (k - 1) as nat)),
        k > 0 ==> forall|n: SomeCommandV, vs: Seq<VarV>, b: bool, sc: ScopeV| #[trigger]
            (judge(w, k).cmd)(n, vs, b, sc) == c_cmd_body(w, n, vs, b, sc, judge(w, (k - 1) as nat)),
{
    reveal_with_fuel(judge, 1);
}

/// A comparison of two expressions for equality is a condition exactly where both have types and these agree.
pub proof fn comparison_typed(w: World, x: ExprV, op: BinOp, a: ExprV, b: ExprV, sc: ScopeV, k: nat)
    requires
        x.kind == ExprKindV::Binary(op, Box::new(a), Box::new(b)),
        op == BinOp::Eq || op == BinOp::Neq,
    ensures
        (judge(w, k + 1).expr)(x, sc) == match ((judge(w, k).expr)(a, sc), (judge(w, k).expr)(b, sc)) {
            (Err(e), _) => Err::<ST, CEV>(e),
            (Ok(_), Err(e)) => Err(e),
            (Ok(s), Ok(t)) => if agrees(s, t) {
                Ok(ST::Bool)
            } else {
                Err(
                    semantic(
                        w,
                        x.span,
                        "Type mismatch: expected "@ + sem_text(s) + ", found "@ + sem_text(t) + "."@,
                    ),
                )
            },
        },
{
    judge_rules(w, k + 1);
    reveal(c_infer);
    reveal(c_binary);
    if (judge(w, k).expr)(a, sc) is Ok && (judge(w, k).expr)(b, sc) is Ok {
        let s = (judge(w, k).expr)(a, sc)->Ok_0;
        let t = (judge(w, k).expr)(b, sc)->Ok_0;
        agrees_symmetric(s, t);
        agrees_symmetric(t, s);
    }
}

/// The sides of a comparison for equality can change places: one is a condition exactly where the other is.
pub proof fn comparison_symmetric(w: World, x: ExprV, y: ExprV, op: BinOp, a: ExprV, b: ExprV, sc: ScopeV, k: nat)
    requires
        x.kind == ExprKindV::Binary(op, Box::new(a), Box::new(b)),
        y.kind == ExprKindV::Binary(op, Box::new(b), Box::new(a)),
        op == BinOp::Eq || op == BinOp::Neq,
    ensures
        (judge(w, k).expr)(x, sc) is Ok == (judge(w, k).expr)(y, sc) is Ok,
        (judge(w, k).expr)(x, sc) is Ok ==> (judge(w, k).expr)(x, sc) == (judge(w, k).expr)(y, sc),
{
    judge_rules(w, k);
    if k > 0 {
        let m = (k - 1) as nat;
        comparison_typed(w, x, op, a, b, sc, m);
        comparison_typed(w, y, op, b, a, sc, m);
        if (judge(w, m).expr)(a, sc) is Ok && (judge(w, m).expr)(b, sc) is Ok {
            let s = (judge(w, m).expr)(a, sc)->Ok_0;
            let t = (judge(w, m).expr)(b, sc)->Ok_0;
            agrees_symmetric(s, t);
            agrees_symmetric(t, s);
        }
    }
}

} // verus!
