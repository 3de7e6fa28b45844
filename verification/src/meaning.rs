//! What expressions and type expressions mean: the rules of evaluation, and the knot that ties them.

use crate::ast::{
    AccessV, BinOp, ConstructorV, Expr, ExprKindV, ExprV, FieldDeclV, IdentV, LetDeclV, Name, NameV, Quantifier,
    Type, TypeDefV, TypeKindV, TypeV, UnOp, VarDeclV,
};
use crate::builtins::{builtin_value, unpacked};
use crate::calc::{
    all_names, bound_fe, chain, columns_of, data_value, element_names, field_place, ident_names, is_ring, listed,
    local, next_name, packed_args, plain_type, plain_value, quantified_value, raised_value, range_type, record_part,
    repeated, shifted, size_of, sorted_in, tuple_part, with_args, with_first, with_row,
};
use crate::ctype::{position, rows, start, values, Endless, CT};
use crate::env::{binding, binds, instance_at, symbol, BindingV, EntryV, SymbolsV};
use crate::fexpr::{fe_or, LT};
use crate::judgement::{judge, symbol_at, symbols_of, World, CEV, CR};
use crate::num::{parse_int, ratio, Q};
use crate::operators::{binary_value, chosen_value, lifted, numeric, unary_value};
use crate::span::Span;
use crate::sval::{sv_eq, sv_ite, sv_select, ClosureV, SetV, SV};
use crate::text::same;
use crate::types::{Tid, ST};
use crate::value::Val;
use vstd::prelude::*;

verus! {

/// An error at a place of an instance.
pub open spec fn fault(w: World, at: nat, span: Span, msg: Seq<char>) -> CEV {
    CEV::Semantic(
        if at < w.insts.len() {
            w.insts[at as int].name
        } else {
            Seq::empty()
        },
        span,
        msg,
    )
}

/// The key of an instance.
pub open spec fn key_at(w: World, id: nat) -> Seq<char> {
    if id < w.insts.len() {
        w.insts[id as int].key
    } else {
        Seq::empty()
    }
}

/// What is given for a parameter of an instance.
pub open spec fn given_at(w: World, id: nat, name: Seq<char>) -> Option<BindingV> {
    if id < w.insts.len() {
        binding(w.insts[id as int].bindings, name)
    } else {
        None
    }
}

/// The instance in which the actual parameters of an instance are written.
pub open spec fn from_at(w: World, id: nat) -> nat {
    if id < w.insts.len() {
        w.insts[id as int].from
    } else {
        0
    }
}

/// What a name stands for in an instance, and the instance that declares it.
#[verifier::opaque]
pub open spec fn entry_at(w: World, at: nat, n: NameV) -> Option<(nat, EntryV)> {
    match (judge(World { here: at, ..w }, usize::MAX as nat).name)(n, Seq::empty()) {
        Ok(x) => Some(x),
        Err(_e) => None,
    }
}

/// The place of an identifier, from `i` on.
pub open spec fn ident_place(ids: Seq<IdentV>, name: Seq<char>, i: int) -> Option<nat>
    decreases ids.len() - i,
{
    if i < 0 || i >= ids.len() {
        None
    } else if ids[i].name == name {
        Some(i as nat)
    } else {
        ident_place(ids, name, i + 1)
    }
}

/// The place of a name among names, from `i` on.
pub open spec fn name_place(ns: Seq<Seq<char>>, name: Seq<char>, i: int) -> Option<nat>
    decreases ns.len() - i,
{
    if i < 0 || i >= ns.len() {
        None
    } else if ns[i] == name {
        Some(i as nat)
    } else {
        name_place(ns, name, i + 1)
    }
}

/// What a name means for one of the constructors of a datatype from `i` on: a constructor, the test
/// for it, or an accessor.
pub open spec fn ctor_member(cs: Seq<ConstructorV>, tid: Tid, name: Seq<char>, i: int) -> Option<SV>
    decreases cs.len() - i,
{
    if i < 0 || i >= cs.len() {
        None
    } else {
        let c = cs[i].name.name;
        let fields = all_names(cs[i].accessors, 0, Seq::empty());
        if name == c {
            Some(
                if fields.len() == 0 {
                    SV::Ground(Val::Data(tid, c, Seq::empty()))
                } else {
                    SV::Fun(ClosureV::Ctor(tid, c, fields.len()))
                },
            )
        } else if name == c + "?"@ {
            Some(SV::Fun(ClosureV::Recognizer(c)))
        } else {
            match name_place(fields, name, 0) {
                Some(j) => Some(SV::Fun(ClosureV::Accessor(c, j))),
                None => ctor_member(cs, tid, name, i + 1),
            }
        }
    }
}

/// What a name means for one of the datatypes of a symbol table from `i` on.
pub open spec fn data_member(syms: SymbolsV, key: Seq<char>, name: Seq<char>, i: int) -> Option<SV>
    decreases syms.len() - i,
{
    if i < 0 || i >= syms.len() {
        None
    } else {
        match syms[i].1 {
            EntryV::Type(_s, Some(TypeDefV::Datatype(cs))) => match ctor_member(
                cs,
                Tid { ctx: key, name: syms[i].0 },
                name,
                0,
            ) {
                Some(v) => Some(v),
                None => data_member(syms, key, name, i + 1),
            },
            _ => data_member(syms, key, name, i + 1),
        }
    }
}

/// The value of a constant without a definition: an element of an enumeration, or what belongs to a
/// datatype.
pub open spec fn element_at(w: World, id: nat, name: Seq<char>, sem: ST) -> Option<SV> {
    match enum_element(w, id, name, sem) {
        Some(v) => Some(v),
        None => data_member(symbols_of(w, id), key_at(w, id), name, 0),
    }
}

/// The element of an enumeration of a name.
pub open spec fn enum_element(w: World, id: nat, name: Seq<char>, sem: ST) -> Option<SV> {
    match sem {
        ST::Scalar(tid) => match symbol_at(w, id, tid.name) {
            Some(EntryV::Type(_s, Some(TypeDefV::Scalar(ids)))) => match ident_place(ids, name, 0) {
                Some(i) => Some(SV::Ground(Val::Scalar(tid, i))),
                None => None,
            },
            _ => None,
        },
        _ => None,
    }
}

/// The instance and the size expression of a ring.
pub open spec fn ring_at(w: World, tid: Tid) -> Option<(nat, ExprV)> {
    match instance_at(w.insts, tid.ctx, 1) {
        Some(id) => match symbol_at(w, id, tid.name) {
            Some(EntryV::Type(_s, Some(TypeDefV::Ringset(e)))) => Some((id, e)),
            _ => None,
        },
        None => None,
    }
}

/// How the parts of a piece of syntax are evaluated.
pub ghost struct Calc {
    pub eval: spec_fn(nat, ExprV, Seq<(Seq<char>, SV)>) -> CR<SV>,
    pub ctype: spec_fn(nat, TypeV, Seq<(Seq<char>, SV)>, Seq<(nat, Seq<char>)>) -> CR<CT>,
    pub update: spec_fn(nat, SV, Seq<AccessV>, nat, SV, Span, Seq<(Seq<char>, SV)>) -> CR<SV>,
}

/// The type that a type expression stands for, with its bounds.
#[verifier::opaque]
pub open spec fn v_type_of(
    w: World,
    at: nat,
    x: TypeV,
    lo: Seq<(Seq<char>, SV)>,
    busy: Seq<(nat, Seq<char>)>,
    g: Calc
) -> CR<CT>
{
    match x.kind {
        TypeKindV::Name(n) => {
            v_named_type(w, at, n, x.span, busy, g)
        },
        TypeKindV::Subrange(a, b) => {
            match v_bound(w, at, *a, lo, g) {
                Err(e) => Err(e),
                Ok(lo1) => {
                    match v_bound(w, at, *b, lo, g) {
                        Err(e) => Err(e),
                        Ok(hi1) => {
                            Ok(range_type(lo1, hi1))
                        },
                    }
                },
            }
        },
        TypeKindV::Subtype(sp) => {
            (g.ctype)(at, sp.ty, lo, busy)
        },
        TypeKindV::Array(a, b) => {
            match (g.ctype)(at, *a, lo, busy) {
                Err(e) => Err(e),
                Ok(i1) => {
                    match (g.ctype)(at, *b, lo, busy) {
                        Err(e) => Err(e),
                        Ok(e1) => {
                            Ok(CT::Maps(false, Box::new(i1), Box::new(e1)))
                        },
                    }
                },
            }
        },
        TypeKindV::Function(a, b) => {
            match (g.ctype)(at, *a, lo, busy) {
                Err(e) => Err(e),
                Ok(i1) => {
                    match (g.ctype)(at, *b, lo, busy) {
                        Err(e) => Err(e),
                        Ok(e1) => {
                            Ok(CT::Maps(true, Box::new(i1), Box::new(e1)))
                        },
                    }
                },
            }
        },
        TypeKindV::Tuple(ts) => {
            let none = Seq::<CT>::empty();
            match v_types_of(w, at, ts, lo, busy, none, g, 0) {
                Err(e) => Err(e),
                Ok(v) => {
                    Ok(CT::Tuple(v))
                },
            }
        },
        TypeKindV::Record(fs) => {
            let none = Seq::<(Seq<char>, CT)>::empty();
            match v_fields_of(w, at, fs, lo, busy, none, g, 0) {
                Err(e) => Err(e),
                Ok(v) => {
                    Ok(CT::Record(v))
                },
            }
        },
        TypeKindV::State(_m) => {
            Err(fault(w, at, x.span, "State types are not supported here."@))
        },
    }
}

/// Several types.
#[verifier::opaque]
pub open spec fn v_types_of(
    w: World,
    at: nat,
    v: Seq<TypeV>,
    lo: Seq<(Seq<char>, SV)>,
    busy: Seq<(nat, Seq<char>)>,
    acc: Seq<CT>,
    g: Calc,
    i: int
) -> CR<Seq<CT>>
    decreases v.len() - i,
{
    if i < 0 || i >= v.len() {
        Ok(acc)
    } else {
        match (g.ctype)(at, v[i], lo, busy) {
            Err(e) => Err(e),
            Ok(t) => {
                let acc = acc.push(t);
                v_types_of(w, at, v, lo, busy, acc, g, i + 1)
            },
        }
    }
}

/// The fields of a record type, sorted by name.
#[verifier::opaque]
pub open spec fn v_fields_of(
    w: World,
    at: nat,
    v: Seq<FieldDeclV>,
    lo: Seq<(Seq<char>, SV)>,
    busy: Seq<(nat, Seq<char>)>,
    acc: Seq<(Seq<char>, CT)>,
    g: Calc,
    i: int
) -> CR<Seq<(Seq<char>, CT)>>
    decreases v.len() - i,
{
    if i < 0 || i >= v.len() {
        Ok(acc)
    } else {
        match (g.ctype)(at, v[i].ty, lo, busy) {
            Err(e) => Err(e),
            Ok(t) => {
                let acc = sorted_in(acc, v[i].name.name, t);
                v_fields_of(w, at, v, lo, busy, acc, g, i + 1)
            },
        }
    }
}

/// A bound of a subrange, where there is one.
#[verifier::opaque]
pub open spec fn v_bound(w: World, at: nat, x: ExprV, lo: Seq<(Seq<char>, SV)>, g: Calc) -> CR<Option<int>>
{
    if x.kind is Unbounded {
        Ok(None)
    } else {
        match (g.eval)(at, x, lo) {
            Err(e) => Err(e),
            Ok(v) => {
                match v {
                    SV::Ground(Val::Num(q)) => {
                        if q.is_int() {
                            Ok(Some(q.n))
                        } else {
                            Err(fault(w, at, x.span, "Subrange bounds must evaluate to integer constants."@))
                        }
                    },
                    _ => {
                        Err(fault(w, at, x.span, "Subrange bounds must evaluate to integer constants."@))
                    },
                }
            },
        }
    }
}

/// The type that a name stands for.
#[verifier::opaque]
pub open spec fn v_named_type(
    w: World,
    at: nat,
    n: NameV,
    span: Span,
    busy: Seq<(nat, Seq<char>)>,
    g: Calc
) -> CR<CT>
{
    match plain_type(n) {
        Some(t) => {
            Ok(t)
        },
        None => {
            match entry_at(w, at, n) {
                Some(found) => {
                    match found.1 {
                        EntryV::Type(_s, def) => {
                            v_defined_type(w, at, found.0, n.id.name, def, span, busy, g)
                        },
                        _ => {
                            Err(fault(w, at, span, "Unknown type \""@ + n.id.name + "\"."@))
                        },
                    }
                },
                None => {
                    Err(fault(w, at, span, "Unknown variable \""@ + n.id.name + "\"."@))
                },
            }
        },
    }
}

/// The type that a definition gives.
#[verifier::opaque]
pub open spec fn v_defined_type(
    w: World,
    at: nat,
    id: nat,
    name: Seq<char>,
    def: Option<TypeDefV>,
    span: Span,
    busy: Seq<(nat, Seq<char>)>,
    g: Calc
) -> CR<CT>
{
    match def {
        None => {
            match given_at(w, id, name) {
                Some(BindingV::Type(_s, t)) => {
                    (g.ctype)(from_at(w, id), t, Seq::<(Seq<char>, SV)>::empty(), busy)
                },
                _ => {
                    Ok(CT::Infinite(Endless::Uninterp(Tid { ctx: key_at(w, id), name })))
                },
            }
        },
        Some(TypeDefV::Type(t)) => {
            (g.ctype)(id, t, Seq::<(Seq<char>, SV)>::empty(), busy)
        },
        Some(TypeDefV::Scalar(ids)) => {
            Ok(CT::Scalar(Tid { ctx: key_at(w, id), name }, ident_names(ids)))
        },
        Some(TypeDefV::Scalarset(e)) => {
            match v_set_size(w, at, id, e, span, g) {
                Err(e) => Err(e),
                Ok(n) => {
                    Ok(CT::Scalar(Tid { ctx: key_at(w, id), name }, element_names(name, n)))
                },
            }
        },
        Some(TypeDefV::Ringset(e)) => {
            match v_set_size(w, at, id, e, span, g) {
                Err(e) => Err(e),
                Ok(n) => {
                    Ok(CT::Scalar(Tid { ctx: key_at(w, id), name }, element_names(name, n)))
                },
            }
        },
        Some(TypeDefV::Datatype(cs)) => {
            if busy.contains((id, name)) {
                Ok(CT::Infinite(Endless::Uninterp(Tid { ctx: key_at(w, id), name })))
            } else {
                let more = busy.push((id, name));
                let nothing = Seq::<(Seq<char>, Seq<CT>)>::empty();
                match v_constructors(w, id, cs, more, nothing, g, 0) {
                    Err(e) => Err(e),
                    Ok(v) => {
                        Ok(CT::Data(Tid { ctx: key_at(w, id), name }, v))
                    },
                }
            }
        },
    }
}

/// The size of a type given by its size.
#[verifier::opaque]
pub open spec fn v_set_size(w: World, at: nat, id: nat, e: ExprV, span: Span, g: Calc) -> CR<nat>
{
    match (g.eval)(id, e, Seq::<(Seq<char>, SV)>::empty()) {
        Err(e) => Err(e),
        Ok(v) => {
            match size_of(v) {
                Some(n) => {
                    Ok(n)
                },
                None => {
                    Err(fault(w, at, span, "Scalarset size must be a natural constant."@))
                },
            }
        },
    }
}

/// The constructors of a datatype, with the types of their arguments.
#[verifier::opaque]
pub open spec fn v_constructors(
    w: World,
    id: nat,
    v: Seq<ConstructorV>,
    busy: Seq<(nat, Seq<char>)>,
    acc: Seq<(Seq<char>, Seq<CT>)>,
    g: Calc,
    i: int
) -> CR<Seq<(Seq<char>, Seq<CT>)>>
    decreases v.len() - i,
{
    if i < 0 || i >= v.len() {
        Ok(acc)
    } else {
        let nothing = Seq::<CT>::empty();
        match v_arguments(w, id, v[i].accessors, busy, nothing, g, 0) {
            Err(e) => Err(e),
            Ok(ts) => {
                let acc = acc.push((v[i].name.name, ts));
                v_constructors(w, id, v, busy, acc, g, i + 1)
            },
        }
    }
}

/// The types of the arguments of a constructor.
#[verifier::opaque]
pub open spec fn v_arguments(
    w: World,
    id: nat,
    v: Seq<VarDeclV>,
    busy: Seq<(nat, Seq<char>)>,
    acc: Seq<CT>,
    g: Calc,
    i: int
) -> CR<Seq<CT>>
    decreases v.len() - i,
{
    if i < 0 || i >= v.len() {
        Ok(acc)
    } else {
        match (g.ctype)(id, v[i].ty, Seq::<(Seq<char>, SV)>::empty(), busy) {
            Err(e) => Err(e),
            Ok(t) => {
                let acc = acc + repeated(v[i].names.len(), t);
                v_arguments(w, id, v, busy, acc, g, i + 1)
            },
        }
    }
}

/// The value of an expression made of several.
#[verifier::opaque]
pub open spec fn v_eval_rest(w: World, at: nat, x: ExprV, lo: Seq<(Seq<char>, SV)>, g: Calc) -> CR<SV>
{
    match x.kind {
        ExprKindV::SetList(es) => {
            let none = Seq::<SV>::empty();
            match v_exprs(w, at, es, lo, none, g, 0) {
                Err(e) => Err(e),
                Ok(vs) => {
                    Ok(SV::Among(SetV::List(vs)))
                },
            }
        },
        ExprKindV::ArrayLit(d, b) => {
            v_array(w, at, *d, *b, x.span, lo, g)
        },
        ExprKindV::RecordLit(es) => {
            let none = Seq::<(Seq<char>, SV)>::empty();
            match v_entries(w, at, es, lo, none, g, 0) {
                Err(e) => Err(e),
                Ok(fs) => {
                    Ok(SV::Record(fs))
                },
            }
        },
        ExprKindV::TupleLit(es) => {
            let none = Seq::<SV>::empty();
            match v_exprs(w, at, es, lo, none, g, 0) {
                Err(e) => Err(e),
                Ok(vs) => {
                    Ok(SV::Tuple(vs))
                },
            }
        },
        ExprKindV::Conditional { cond, then_, els, is_elsif } => {
            match (g.eval)(at, *cond, lo) {
                Err(e) => Err(e),
                Ok(vc) => {
                    v_conditional(w, at, vc, *then_, *els, x.span, lo, g)
                },
            }
        },
        ExprKindV::ModInit(_m) => {
            Err(fault(w, at, x.span, "INIT_PRED/TRANS_PRED are not supported."@))
        },
        ExprKindV::ModTrans(_m) => {
            Err(fault(w, at, x.span, "INIT_PRED/TRANS_PRED are not supported."@))
        },
        _ => {
            Err(fault(w, at, x.span, "Invalid expression."@))
        },
    }
}

/// The value of an expression that binds variables.
#[verifier::opaque]
pub open spec fn v_eval_binder(w: World, at: nat, x: ExprV, lo: Seq<(Seq<char>, SV)>, g: Calc) -> CR<SV>
{
    match x.kind {
        ExprKindV::Lambda(ds, b) => {
            Ok(SV::Fun(ClosureV::Lambda(all_names(ds, 0, Seq::empty()), *b, at, lo)))
        },
        ExprKindV::Quantified(q, ds, b) => {
            v_quantified(w, at, q, ds, *b, x.span, lo, g)
        },
        ExprKindV::Let(ds, b) => {
            let same = lo;
            match v_lets(w, at, ds, lo, same, g, 0) {
                Err(e) => Err(e),
                Ok(inner) => {
                    (g.eval)(at, *b, inner)
                },
            }
        },
        ExprKindV::SetPred(sp) => {
            Ok(SV::Among(SetV::Pred(at, lo, sp.var.name, sp.pred)))
        },
        _ => {
            v_eval_rest(w, at, x, lo, g)
        },
    }
}

/// The value of a part, or of a changed value.
#[verifier::opaque]
pub open spec fn v_eval_part(w: World, at: nat, x: ExprV, lo: Seq<(Seq<char>, SV)>, g: Calc) -> CR<SV>
{
    match x.kind {
        ExprKindV::RecordSelect(r, f) => {
            match (g.eval)(at, *r, lo) {
                Err(e) => Err(e),
                Ok(vr) => {
                    match record_part(vr, f.name) {
                        Some(v) => {
                            Ok(v)
                        },
                        None => {
                            Err(fault(w, at, f.span, "Unknown record field \""@ + f.name + "\"."@))
                        },
                    }
                },
            }
        },
        ExprKindV::TupleSelect(t, j) => {
            match (g.eval)(at, *t, lo) {
                Err(e) => Err(e),
                Ok(vt) => {
                    match tuple_part(vt, j as nat) {
                        Some(v) => {
                            Ok(v)
                        },
                        None => {
                            Err(fault(w, at, x.span, "Invalid tuple selection."@))
                        },
                    }
                },
            }
        },
        ExprKindV::Update { target, accesses, value } => {
            match (g.eval)(at, *target, lo) {
                Err(e) => Err(e),
                Ok(vt) => {
                    match (g.eval)(at, *value, lo) {
                        Err(e) => Err(e),
                        Ok(vv) => {
                            (g.update)(at, vt, accesses, 0, vv, x.span, lo)
                        },
                    }
                },
            }
        },
        _ => {
            v_eval_binder(w, at, x, lo, g)
        },
    }
}

/// The value of an operation or of an application.
#[verifier::opaque]
pub open spec fn v_eval_use(w: World, at: nat, x: ExprV, lo: Seq<(Seq<char>, SV)>, g: Calc) -> CR<SV>
{
    match x.kind {
        ExprKindV::Binary(op, a, b) => {
            match (g.eval)(at, *a, lo) {
                Err(e) => Err(e),
                Ok(va) => {
                    match (g.eval)(at, *b, lo) {
                        Err(e) => Err(e),
                        Ok(vb) => {
                            v_binary(w, at, op, va, vb, x.span, g)
                        },
                    }
                },
            }
        },
        ExprKindV::Unary(op, a) => {
            match (g.eval)(at, *a, lo) {
                Err(e) => Err(e),
                Ok(va) => {
                    v_unary(w, at, op, va, x.span, g)
                },
            }
        },
        ExprKindV::App(f, args) => {
            match (g.eval)(at, *f, lo) {
                Err(e) => Err(e),
                Ok(vf) => {
                    let none = Seq::<SV>::empty();
                    match v_exprs(w, at, args, lo, none, g, 0) {
                        Err(e) => Err(e),
                        Ok(vs) => {
                            v_apply(w, at, vf, vs, x.span, g)
                        },
                    }
                },
            }
        },
        ExprKindV::ArraySelect(a, j) => {
            match (g.eval)(at, *a, lo) {
                Err(e) => Err(e),
                Ok(va) => {
                    match (g.eval)(at, *j, lo) {
                        Err(e) => Err(e),
                        Ok(vj) => {
                            v_select(w, at, va, vj, x.span, g)
                        },
                    }
                },
            }
        },
        _ => {
            v_eval_part(w, at, x, lo, g)
        },
    }
}

/// The symbolic value of an expression.
#[verifier::opaque]
pub open spec fn v_eval_inner(w: World, at: nat, x: ExprV, lo: Seq<(Seq<char>, SV)>, g: Calc) -> CR<SV>
{
    match x.kind {
        ExprKindV::Name(n) => {
            v_name(w, at, n, x.span, lo, g)
        },
        ExprKindV::Next(id) => {
            match local(lo, next_name(id.name)) {
                Some(v) => {
                    Ok(v)
                },
                None => {
                    Err(fault(w, at, x.span, "Unknown variable \""@ + id.name + "'\"."@))
                },
            }
        },
        ExprKindV::Numeral(s) => {
            match parse_int(s) {
                Some(n) => {
                    Ok(SV::Ground(Val::Num(Q::whole(n))))
                },
                None => {
                    Err(fault(w, at, x.span, "Invalid numeral."@))
                },
            }
        },
        ExprKindV::Float { numer, denom } => {
            v_fraction(w, at, numer, denom, x.span, g)
        },
        ExprKindV::Str(_s) => {
            Err(fault(w, at, x.span, "String literals are not supported here."@))
        },
        ExprKindV::Unbounded => {
            Err(fault(w, at, x.span, "Invalid use of `_'."@))
        },
        _ => {
            v_eval_use(w, at, x, lo, g)
        },
    }
}

/// The value of a fraction.
#[verifier::opaque]
pub open spec fn v_fraction(
    w: World,
    at: nat,
    numer: Seq<char>,
    denom: Seq<char>,
    span: Span,
    g: Calc
) -> CR<SV>
{
    match (parse_int(numer), parse_int(denom)) {
        (Some(n), Some(d)) => {
            if d == 0 {
                Err(fault(w, at, span, "Invalid numeral."@))
            } else {
                Ok(SV::Ground(Val::Num(ratio(n, d))))
            }
        },
        _ => {
            Err(fault(w, at, span, "Invalid numeral."@))
        },
    }
}

/// The values of several expressions.
#[verifier::opaque]
pub open spec fn v_exprs(
    w: World,
    at: nat,
    v: Seq<ExprV>,
    lo: Seq<(Seq<char>, SV)>,
    acc: Seq<SV>,
    g: Calc,
    i: int
) -> CR<Seq<SV>>
    decreases v.len() - i,
{
    if i < 0 || i >= v.len() {
        Ok(acc)
    } else {
        match (g.eval)(at, v[i], lo) {
            Err(e) => Err(e),
            Ok(t) => {
                let acc = acc.push(t);
                v_exprs(w, at, v, lo, acc, g, i + 1)
            },
        }
    }
}

/// The fields of a record, sorted by name.
#[verifier::opaque]
pub open spec fn v_entries(
    w: World,
    at: nat,
    v: Seq<(IdentV, ExprV)>,
    lo: Seq<(Seq<char>, SV)>,
    acc: Seq<(Seq<char>, SV)>,
    g: Calc,
    i: int
) -> CR<Seq<(Seq<char>, SV)>>
    decreases v.len() - i,
{
    if i < 0 || i >= v.len() {
        Ok(acc)
    } else {
        match (g.eval)(at, v[i].1, lo) {
            Err(e) => Err(e),
            Ok(t) => {
                let acc = sorted_in(acc, v[i].0.name, t);
                v_entries(w, at, v, lo, acc, g, i + 1)
            },
        }
    }
}

/// The variables with local declarations; none of them is in scope of another.
#[verifier::opaque]
pub open spec fn v_lets(
    w: World,
    at: nat,
    v: Seq<LetDeclV>,
    lo: Seq<(Seq<char>, SV)>,
    acc: Seq<(Seq<char>, SV)>,
    g: Calc,
    i: int
) -> CR<Seq<(Seq<char>, SV)>>
    decreases v.len() - i,
{
    if i < 0 || i >= v.len() {
        Ok(acc)
    } else {
        match (g.eval)(at, v[i].value, lo) {
            Err(e) => Err(e),
            Ok(t) => {
                let acc = acc.push((v[i].name.name, t));
                v_lets(w, at, v, lo, acc, g, i + 1)
            },
        }
    }
}

/// The value of a name.
#[verifier::opaque]
pub open spec fn v_name(w: World, at: nat, n: NameV, span: Span, lo: Seq<(Seq<char>, SV)>, g: Calc) -> CR<SV>
{
    match plain_value(n, lo) {
        Some(v) => {
            Ok(v)
        },
        None => {
            match entry_at(w, at, n) {
                Some(found) => {
                    match found.1 {
                        EntryV::Const(sem, value) => {
                            v_constant(w, at, found.0, n.id.name, sem, value, span, g)
                        },
                        EntryV::Type(_s, _d) => {
                            Err(fault(w, at, span, "Type \""@ + n.id.name + "\" used as an expression."@))
                        },
                        _ => {
                            Err(fault(w, at, span, "Invalid use of \""@ + n.id.name + "\" in an expression."@))
                        },
                    }
                },
                None => {
                    Err(fault(w, at, span, "Unknown variable \""@ + n.id.name + "\"."@))
                },
            }
        },
    }
}

/// The value of a declared constant.
#[verifier::opaque]
pub open spec fn v_constant(
    w: World,
    at: nat,
    id: nat,
    name: Seq<char>,
    sem: ST,
    value: Option<ExprV>,
    span: Span,
    g: Calc
) -> CR<SV>
{
    match given_at(w, id, name) {
        Some(BindingV::Expr(e)) => {
            (g.eval)(from_at(w, id), e, Seq::<(Seq<char>, SV)>::empty())
        },
        _ => {
            match value {
                Some(e) => {
                    (g.eval)(id, e, Seq::<(Seq<char>, SV)>::empty())
                },
                None => {
                    match element_at(w, id, name, sem) {
                        Some(v) => {
                            Ok(v)
                        },
                        None => {
                            Err(fault(w, at, span, "Uninterpreted constant \""@ + name + "\" cannot be evaluated."@))
                        },
                    }
                },
            }
        },
    }
}

/// The value of a binary operation.
#[verifier::opaque]
pub open spec fn v_binary(w: World, at: nat, op: BinOp, a: SV, b: SV, span: Span, g: Calc) -> CR<SV>
{
    match binary_value(op, a, b) {
        Ok(v) => {
            Ok(v)
        },
        Err(m) => {
            Err(fault(w, at, span, m))
        },
    }
}

/// The value of a unary operation.
#[verifier::opaque]
pub open spec fn v_unary(w: World, at: nat, op: UnOp, a: SV, span: Span, g: Calc) -> CR<SV>
{
    match unary_value(op, a) {
        Ok(v) => {
            Ok(v)
        },
        Err(m) => {
            Err(fault(w, at, span, m))
        },
    }
}

/// The value of a conditional.
#[verifier::opaque]
pub open spec fn v_conditional(
    w: World,
    at: nat,
    c: SV,
    t: ExprV,
    e: ExprV,
    span: Span,
    lo: Seq<(Seq<char>, SV)>,
    g: Calc
) -> CR<SV>
{
    match c {
        SV::Ground(Val::Bool(b)) => {
            if b {
                (g.eval)(at, t, lo)
            } else {
                (g.eval)(at, e, lo)
            }
        },
        _ => {
            match (g.eval)(at, t, lo) {
                Err(e) => Err(e),
                Ok(vt) => {
                    match (g.eval)(at, e, lo) {
                        Err(e) => Err(e),
                        Ok(ve) => {
                            match chosen_value(c, vt, ve) {
                                Ok(v) => {
                                    Ok(v)
                                },
                                Err(m) => {
                                    Err(fault(w, at, span, m))
                                },
                            }
                        },
                    }
                },
            }
        },
    }
}

/// The value of a quantified expression.
#[verifier::opaque]
pub open spec fn v_quantified(
    w: World,
    at: nat,
    q: Quantifier,
    ds: Seq<VarDeclV>,
    b: ExprV,
    span: Span,
    lo: Seq<(Seq<char>, SV)>,
    g: Calc
) -> CR<SV>
{
    let names = all_names(ds, 0, Seq::empty());
    match v_assignments(w, at, ds, span, lo, g) {
        Err(e) => Err(e),
        Ok(rows) => {
            let none = Seq::<SV>::empty();
            match v_instances(w, at, rows, names, b, lo, none, g, 0) {
                Err(e) => Err(e),
                Ok(vs) => {
                    match quantified_value(q, vs) {
                        Ok(v) => {
                            Ok(v)
                        },
                        Err(m) => {
                            Err(fault(w, at, span, m))
                        },
                    }
                },
            }
        },
    }
}

/// The values of an expression for each row of values of variables.
#[verifier::opaque]
pub open spec fn v_instances(
    w: World,
    at: nat,
    v: Seq<Seq<Val>>,
    names: Seq<Seq<char>>,
    b: ExprV,
    lo: Seq<(Seq<char>, SV)>,
    acc: Seq<SV>,
    g: Calc,
    i: int
) -> CR<Seq<SV>>
    decreases v.len() - i,
{
    if i < 0 || i >= v.len() {
        Ok(acc)
    } else {
        let inner = with_row(lo, names, v[i]);
        match (g.eval)(at, b, inner) {
            Err(e) => Err(e),
            Ok(t) => {
                let acc = acc.push(t);
                v_instances(w, at, v, names, b, lo, acc, g, i + 1)
            },
        }
    }
}

/// The rows of values of declared variables.
#[verifier::opaque]
pub open spec fn v_assignments(
    w: World,
    at: nat,
    ds: Seq<VarDeclV>,
    span: Span,
    lo: Seq<(Seq<char>, SV)>,
    g: Calc
) -> CR<Seq<Seq<Val>>>
{
    let none = Seq::<Seq<Val>>::empty();
    match v_domains(w, at, ds, span, lo, none, g, 0) {
        Err(e) => Err(e),
        Ok(cols) => {
            Ok(rows(cols, 0, start()))
        },
    }
}

/// The values of declared variables.
#[verifier::opaque]
pub open spec fn v_domains(
    w: World,
    at: nat,
    v: Seq<VarDeclV>,
    span: Span,
    lo: Seq<(Seq<char>, SV)>,
    acc: Seq<Seq<Val>>,
    g: Calc,
    i: int
) -> CR<Seq<Seq<Val>>>
    decreases v.len() - i,
{
    if i < 0 || i >= v.len() {
        Ok(acc)
    } else {
        match (g.ctype)(at, v[i].ty, lo, Seq::<(nat, Seq<char>)>::empty()) {
            Err(e) => Err(e),
            Ok(t) => {
                match values(t) {
                    Some(vs) => {
                        let acc = acc + columns_of(v[i].names.len(), vs);
                        v_domains(w, at, v, span, lo, acc, g, i + 1)
                    },
                    None => {
                        Err(fault(w, at, span, "Finite type expected."@))
                    },
                }
            },
        }
    }
}

/// The value of an array given element by element.
#[verifier::opaque]
pub open spec fn v_array(
    w: World,
    at: nat,
    d: VarDeclV,
    b: ExprV,
    span: Span,
    lo: Seq<(Seq<char>, SV)>,
    g: Calc
) -> CR<SV>
{
    match (g.ctype)(at, d.ty, lo, Seq::<(nat, Seq<char>)>::empty()) {
        Err(e) => Err(e),
        Ok(t) => {
            match values(t) {
                Some(vals) => {
                    let none = Seq::<SV>::empty();
                    match v_elements(w, at, vals, d.names, b, lo, none, g, 0) {
                        Err(e) => Err(e),
                        Ok(vs) => {
                            Ok(SV::Array(t, vs))
                        },
                    }
                },
                None => {
                    Err(fault(w, at, span, "Finite type expected in array literal index."@))
                },
            }
        },
    }
}

/// The values of an expression for each value of a variable.
#[verifier::opaque]
pub open spec fn v_elements(
    w: World,
    at: nat,
    v: Seq<Val>,
    ids: Seq<IdentV>,
    b: ExprV,
    lo: Seq<(Seq<char>, SV)>,
    acc: Seq<SV>,
    g: Calc,
    i: int
) -> CR<Seq<SV>>
    decreases v.len() - i,
{
    if i < 0 || i >= v.len() {
        Ok(acc)
    } else {
        let inner = with_first(lo, ids, SV::Ground(v[i]));
        match (g.eval)(at, b, inner) {
            Err(e) => Err(e),
            Ok(t) => {
                let acc = acc.push(t);
                v_elements(w, at, v, ids, b, lo, acc, g, i + 1)
            },
        }
    }
}

/// The value of a function or array at arguments.
#[verifier::opaque]
pub open spec fn v_apply(w: World, at: nat, f: SV, args: Seq<SV>, span: Span, g: Calc) -> CR<SV>
{
    match f {
        SV::Fun(ClosureV::Lambda(ps, body, inst, locs)) => {
            match unpacked(args, ps.len()) {
                Some(given) => {
                    let inner = with_args(locs, ps, given);
                    (g.eval)(inst, body, inner)
                },
                None => {
                    Err(fault(w, at, span, "Wrong number of arguments."@))
                },
            }
        },
        SV::Fun(ClosureV::Builtin(name)) => {
            v_builtin(w, at, name, args, span, g)
        },
        SV::Fun(c) => {
            match data_value(c, args) {
                Some(v) => {
                    Ok(v)
                },
                None => {
                    Err(fault(w, at, span, "Function cannot be applied to the given value."@))
                },
            }
        },
        SV::Array(t, elems) => {
            match sv_select(t, elems, packed_args(args)) {
                Some(v) => {
                    Ok(v)
                },
                None => {
                    Err(fault(w, at, span, "Index out of bounds."@))
                },
            }
        },
        SV::Among(s) => {
            v_member(w, at, s, packed_args(args), span, g)
        },
        _ => {
            Err(fault(w, at, span, "Function (array) type expected."@))
        },
    }
}

/// The value of an array or function at an index.
#[verifier::opaque]
pub open spec fn v_select(w: World, at: nat, a: SV, j: SV, span: Span, g: Calc) -> CR<SV>
{
    let one = seq![j];
    match a {
        SV::Array(_t, _e) => {
            v_apply(w, at, a, one, span, g)
        },
        SV::Fun(_c) => {
            v_apply(w, at, a, one, span, g)
        },
        SV::Among(_s) => {
            v_apply(w, at, a, one, span, g)
        },
        _ => {
            Err(fault(w, at, span, "Function (array) type expected."@))
        },
    }
}

/// The condition that a value is in a set.
#[verifier::opaque]
pub open spec fn v_member(w: World, at: nat, s: SetV, x: SV, span: Span, g: Calc) -> CR<SV>
{
    match s {
        SetV::Pred(inst, locs, var, pred) => {
            let inner = locs.push((var, x));
            (g.eval)(inst, pred, inner)
        },
        SetV::List(vs) => {
            match listed(vs, x, 0, Seq::empty()) {
                Some(es) => {
                    Ok(lifted(fe_or(es)))
                },
                None => {
                    Err(fault(w, at, span, "values that cannot be compared"@))
                },
            }
        },
        SetV::Bound(b, e) => {
            match numeric(x) {
                Some(y) => {
                    Ok(SV::Sym(bound_fe(b, e, y), LT::Bool))
                },
                None => {
                    Err(fault(w, at, span, "Numeric expression expected."@))
                },
            }
        },
    }
}

/// The value of a function of the prelude.
#[verifier::opaque]
pub open spec fn v_builtin(w: World, at: nat, name: Seq<char>, args: Seq<SV>, span: Span, g: Calc) -> CR<SV>
{
    if is_ring(name) {
        if args.len() == 0 {
            Err(fault(w, at, span, "Wrong number of arguments."@))
        } else {
            v_ring(w, at, name == "rsucc"@, args[0], span, g)
        }
    } else {
        match builtin_value(name, args) {
            Ok(v) => {
                Ok(v)
            },
            Err(m) => {
                Err(fault(w, at, span, m))
            },
        }
    }
}

/// The next or the previous element of a ring.
#[verifier::opaque]
pub open spec fn v_ring(w: World, at: nat, succ: bool, x: SV, span: Span, g: Calc) -> CR<SV>
{
    match x {
        SV::Ground(Val::Scalar(tid, i)) => {
            match ring_at(w, tid) {
                Some(size) => {
                    match (g.eval)(size.0, size.1, Seq::<(Seq<char>, SV)>::empty()) {
                        Err(e) => Err(e),
                        Ok(v) => {
                            match size_of(v) {
                                Some(n) => {
                                    if n == 0 {
                                        Err(fault(w, at, span, "rsucc/rpred applied to a non-ringset value."@))
                                    } else {
                                        Ok(SV::Ground(Val::Scalar(tid, shifted(succ, i, n))))
                                    }
                                },
                                None => {
                                    Err(fault(w, at, span, "rsucc/rpred applied to a non-ringset value."@))
                                },
                            }
                        },
                    }
                },
                None => {
                    Err(fault(w, at, span, "rsucc/rpred applied to a non-ringset value."@))
                },
            }
        },
        SV::Sym(e, LT::Scalar(tid, es)) => {
            match ring_at(w, tid) {
                Some(_r) => {
                    if es.len() == 0 {
                        Err(fault(w, at, span, "rsucc/rpred on empty ringset."@))
                    } else {
                        Ok(SV::Sym(chain(e, tid, succ, es.len(), 0), LT::Scalar(tid, es)))
                    }
                },
                None => {
                    Err(fault(w, at, span, "rsucc/rpred applied to a non-ringset value."@))
                },
            }
        },
        _ => {
            Err(fault(w, at, span, "rsucc/rpred applied to a non-ringset value."@))
        },
    }
}

/// A value with the part that accesses lead to, from access `j` on, replaced.
#[verifier::opaque]
pub open spec fn v_update_step(
    w: World,
    at: nat,
    t: SV,
    acs: Seq<AccessV>,
    j: nat,
    val: SV,
    span: Span,
    lo: Seq<(Seq<char>, SV)>,
    g: Calc
) -> CR<SV>
{
    if j >= acs.len() {
        Ok(val)
    } else {
        match t {
            SV::Ground(v) => {
                match raised_value(v) {
                    Some(up) => {
                        (g.update)(at, up, acs, j, val, span, lo)
                    },
                    None => {
                        Err(fault(w, at, span, "Internal: array value without index type."@))
                    },
                }
            },
            _ => {
                match acs[j as int] {
                    AccessV::Array(ie) => {
                        match (g.eval)(at, ie, lo) {
                            Err(e) => Err(e),
                            Ok(iv) => {
                                v_update_at(w, at, t, iv, acs, j, val, span, lo, g)
                            },
                        }
                    },
                    AccessV::Args(es) => {
                        let none = Seq::<SV>::empty();
                        match v_exprs(w, at, es, lo, none, g, 0) {
                            Err(e) => Err(e),
                            Ok(vs) => {
                                let iv = packed_args(vs);
                                v_update_at(w, at, t, iv, acs, j, val, span, lo, g)
                            },
                        }
                    },
                    AccessV::Record(f) => {
                        v_update_field(w, at, t, f, acs, j, val, span, lo, g)
                    },
                    AccessV::Tuple(n) => {
                        v_update_part(w, at, t, n as nat, acs, j, val, span, lo, g)
                    },
                }
            },
        }
    }
}

/// A record with a part replaced.
#[verifier::opaque]
pub open spec fn v_update_field(
    w: World,
    at: nat,
    t: SV,
    f: IdentV,
    acs: Seq<AccessV>,
    j: nat,
    val: SV,
    span: Span,
    lo: Seq<(Seq<char>, SV)>,
    g: Calc
) -> CR<SV>
{
    match t {
        SV::Record(fs) => {
            match field_place(fs, f.name, 0) {
                Some(p) => {
                    match (g.update)(at, fs[p as int].1, acs, (j + 1) as nat, val, span, lo) {
                        Err(e) => Err(e),
                        Ok(v) => {
                            Ok(SV::Record(fs.update(p as int, (fs[p as int].0, v))))
                        },
                    }
                },
                None => {
                    Err(fault(w, at, f.span, "Unknown record field \""@ + f.name + "\"."@))
                },
            }
        },
        _ => {
            Err(fault(w, at, span, "Invalid WITH update."@))
        },
    }
}

/// A tuple with a part replaced.
#[verifier::opaque]
pub open spec fn v_update_part(
    w: World,
    at: nat,
    t: SV,
    n: nat,
    acs: Seq<AccessV>,
    j: nat,
    val: SV,
    span: Span,
    lo: Seq<(Seq<char>, SV)>,
    g: Calc
) -> CR<SV>
{
    match t {
        SV::Tuple(vs) => {
            if n < 1 || n > vs.len() {
                Err(fault(w, at, span, "Tuple index out of bounds."@))
            } else {
                match (g.update)(at, vs[n - 1], acs, (j + 1) as nat, val, span, lo) {
                    Err(e) => Err(e),
                    Ok(v) => {
                        Ok(SV::Tuple(vs.update(n - 1, v)))
                    },
                }
            }
        },
        _ => {
            Err(fault(w, at, span, "Invalid WITH update."@))
        },
    }
}

/// An array with a part of an element replaced.
#[verifier::opaque]
pub open spec fn v_update_at(
    w: World,
    at: nat,
    t: SV,
    iv: SV,
    acs: Seq<AccessV>,
    j: nat,
    val: SV,
    span: Span,
    lo: Seq<(Seq<char>, SV)>,
    g: Calc
) -> CR<SV>
{
    match t {
        SV::Array(it, es) => {
            match iv {
                SV::Ground(v) => {
                    match position(it, v) {
                        Some(p) => {
                            if p >= es.len() {
                                Err(fault(w, at, span, "Index out of bounds."@))
                            } else {
                                match (g.update)(at, es[p as int], acs, (j + 1) as nat, val, span, lo) {
                                    Err(e) => Err(e),
                                    Ok(u) => {
                                        Ok(SV::Array(it, es.update(p as int, u)))
                                    },
                                }
                            }
                        },
                        None => {
                            Err(fault(w, at, span, "Index out of bounds."@))
                        },
                    }
                },
                _ => {
                    match values(it) {
                        Some(vals) => {
                            let all = es;
                            match v_update_all(w, at, vals, iv, acs, j, val, span, lo, all, g, 0) {
                                Err(e) => Err(e),
                                Ok(us) => {
                                    Ok(SV::Array(it, us))
                                },
                            }
                        },
                        None => {
                            Err(fault(w, at, span, "Finite index type expected."@))
                        },
                    }
                },
            }
        },
        _ => {
            Err(fault(w, at, span, "Invalid WITH update."@))
        },
    }
}

/// Every element of an array with a part replaced, where the index has its index value.
#[verifier::opaque]
pub open spec fn v_update_all(
    w: World,
    at: nat,
    v: Seq<Val>,
    iv: SV,
    acs: Seq<AccessV>,
    j: nat,
    val: SV,
    span: Span,
    lo: Seq<(Seq<char>, SV)>,
    acc: Seq<SV>,
    g: Calc,
    i: int
) -> CR<Seq<SV>>
    decreases v.len() - i,
{
    if i < 0 || i >= v.len() {
        Ok(acc)
    } else {
        if i >= acc.len() {
            Ok(acc)
        } else {
            match sv_eq(iv, SV::Ground(v[i])) {
                Some(c) => {
                    match (g.update)(at, acc[i], acs, (j + 1) as nat, val, span, lo) {
                        Err(e) => Err(e),
                        Ok(u) => {
                            match sv_ite(c, u, acc[i]) {
                                Some(z) => {
                                    let acc = acc.update(i, z);
                                    v_update_all(w, at, v, iv, acs, j, val, span, lo, acc, g, i + 1)
                                },
                                None => {
                                    Err(fault(w, at, span, "values that cannot be merged"@))
                                },
                            }
                        },
                    }
                },
                None => {
                    Err(fault(w, at, span, "values that cannot be compared"@))
                },
            }
        }
    }
}

/// The evaluation of syntax of nesting depth up to `k`.
pub closed spec fn evaluation(w: World, k: nat) -> Calc
    decreases k,
{
    if k == 0 {
        Calc {
            eval: |at: nat, x: ExprV, lo: Seq<(Seq<char>, SV)>| Err(fault(w, at, x.span, "Evaluation depth exceeded (non-terminating recursion?)."@)),
            ctype: |at: nat, x: TypeV, lo: Seq<(Seq<char>, SV)>, busy: Seq<(nat, Seq<char>)>| Err(CEV::Deep),
            update: |at: nat, t: SV, acs: Seq<AccessV>, j: nat, val: SV, span: Span, lo: Seq<(Seq<char>, SV)>| Err(CEV::Deep),
        }
    } else {
        let g = evaluation(w, (k - 1) as nat);
        Calc {
            eval: |at: nat, x: ExprV, lo: Seq<(Seq<char>, SV)>| v_eval_inner(w, at, x, lo, g),
            ctype: |at: nat, x: TypeV, lo: Seq<(Seq<char>, SV)>, busy: Seq<(nat, Seq<char>)>| v_type_of(w, at, x, lo, busy, g),
            update: |at: nat, t: SV, acs: Seq<AccessV>, j: nat, val: SV, span: Span, lo: Seq<(Seq<char>, SV)>| v_update_step(
                w,
                at,
                t,
                acs,
                j,
                val,
                span,
                lo,
                g
            ),
        }
    }
}

/// The evaluation of the parts of a piece of syntax goes by the rules.
pub proof fn evaluation_rules(w: World, k: nat)
    ensures
        k == 0 ==> forall|at: nat, x: ExprV, lo: Seq<(Seq<char>, SV)>| #[trigger] (evaluation(w, k).eval)(at, x, lo)
            == Err::<SV, CEV>(fault(w, at, x.span, "Evaluation depth exceeded (non-terminating recursion?)."@)),
        k > 0 ==> forall|at: nat, x: ExprV, lo: Seq<(Seq<char>, SV)>| #[trigger] (evaluation(w, k).eval)(at, x, lo)
            == v_eval_inner(
            w,
            at,
            x,
            lo,
            evaluation(w, (k - 1) as nat)
        ),
        k == 0 ==> forall|at: nat, x: TypeV, lo: Seq<(Seq<char>, SV)>, busy: Seq<(nat, Seq<char>)>| #[trigger] (evaluation(w, k).ctype)(at, x, lo, busy)
            == Err::<CT, CEV>(CEV::Deep),
        k > 0 ==> forall|at: nat, x: TypeV, lo: Seq<(Seq<char>, SV)>, busy: Seq<(nat, Seq<char>)>| #[trigger] (evaluation(w, k).ctype)(at, x, lo, busy)
            == v_type_of(
            w,
            at,
            x,
            lo,
            busy,
            evaluation(w, (k - 1) as nat)
        ),
        k == 0 ==> forall|at: nat, t: SV, acs: Seq<AccessV>, j: nat, val: SV, span: Span, lo: Seq<(Seq<char>, SV)>| #[trigger] (evaluation(w, k).update)(at, t, acs, j, val, span, lo)
            == Err::<SV, CEV>(CEV::Deep),
        k > 0 ==> forall|at: nat, t: SV, acs: Seq<AccessV>, j: nat, val: SV, span: Span, lo: Seq<(Seq<char>, SV)>| #[trigger] (evaluation(w, k).update)(at, t, acs, j, val, span, lo)
            == v_update_step(
            w,
            at,
            t,
            acs,
            j,
            val,
            span,
            lo,
            evaluation(w, (k - 1) as nat)
        ),
{
    reveal_with_fuel(evaluation, 1);
}

} // verus!
