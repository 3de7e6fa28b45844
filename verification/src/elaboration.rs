//! What modules stand for: the rules of elaboration, and the knot that ties them.

use crate::ast::{
    rhs_value, AccessV, BaseDeclV, BaseModuleV, DefOrCommandV, Definition, DefinitionV, ExprV, GuardedCommandV,
    IdentV, LhsV, Module, ModuleKindV, ModuleV, NameV, NewVarDeclV, RhsV, SimpleDefinitionV, SomeCommandV,
    TypeKindV, TypeV, VarClass, VarDeclV,
};
use crate::blocks::{
    also, as_part, fixed_element, fronted, guards, has_transition, head_name, label_text, no_elab, reclassed,
    skel_element, stuttering, type_part, with_constraint, with_defined, with_init_block, with_init_def,
    with_invariant, with_trans, with_trans_def, with_var, with_vars,
};
use crate::calc::{
    all_names, columns_of, field_place, local, record_part, tuple_part, with_args, with_first, with_row,
};
use crate::compose::{merged_multi, renamed_vars, section_trans};
use crate::ctype::{leaf_of, rows, size, start, values, CT};
use crate::env::EntryV;
use crate::fexpr::{fe_and, fe_not, fe_or, LeafId, FE, LT};
use crate::flat::Cmd;
use crate::judgement::{World, CEV, CR};
use crate::meaning::{entry_at, evaluation, fault, v_apply, v_exprs, v_select};
use crate::operators::condition;
use crate::skel::{
    all_texts, ambient, dotted, indexed, merged_elab, numbered, shared, state_locals, sv_ids, ElabV, LeafV, VarE,
    VarsV,
};
use crate::span::Span;
use crate::sval::{sv_eq, SV};
use crate::value::Val;
use vstd::prelude::*;

verus! {

/// How deeply evaluation may nest.
pub const DEPTH: usize = 100_000;

/// How the parts of a module are elaborated.
pub ghost struct Build {
    pub alloc: spec_fn(nat, Seq<char>, CT, VarClass, Span, Seq<LeafV>) -> CR<(SV, Seq<LeafV>)>,
    pub subtype: spec_fn(nat, TypeV, SV, Span, Seq<(Seq<char>, SV)>) -> CR<Option<FE>>,
    pub def: spec_fn(nat, DefinitionV, bool, Seq<(Seq<char>, SV)>) -> CR<FE>,
    pub heads: spec_fn(nat, DefinitionV, Seq<(Seq<char>, SV)>, Seq<LeafId>) -> CR<Seq<LeafId>>,
    pub cmd: spec_fn(nat, SomeCommandV, bool, Seq<(Seq<char>, SV)>, Seq<Cmd>) -> CR<Seq<Cmd>>,
    pub module: spec_fn(
        nat,
        ModuleV,
        Seq<(Seq<char>, SV)>,
        VarsV,
        Seq<LeafV>
    ) -> CR<(ElabV, VarsV, Seq<LeafV>)>,
}

/// A state variable of a type: its symbolic value, and its leaves behind those there are.
#[verifier::opaque]
pub open spec fn f_allocated(
    w: World,
    at: nat,
    path: Seq<char>,
    t: CT,
    class: VarClass,
    span: Span,
    ls: Seq<LeafV>,
    g: Build
) -> CR<(SV, Seq<LeafV>)>
{
    match leaf_of(t) {
        Some(lt) => {
            if ls.len() >= u32::MAX {
                Err(fault(w, at, span, "Too many leaves."@))
            } else {
                Ok((SV::Sym(FE::Var(ls.len() as LeafId, false), lt), ls.push((path, lt, class))))
            }
        },
        None => {
            f_alloc_parts(w, at, path, t, class, span, ls, g)
        },
    }
}

/// A state variable of a type with parts.
#[verifier::opaque]
pub open spec fn f_alloc_parts(
    w: World,
    at: nat,
    path: Seq<char>,
    t: CT,
    class: VarClass,
    span: Span,
    ls: Seq<LeafV>,
    g: Build
) -> CR<(SV, Seq<LeafV>)>
{
    let none = Seq::<SV>::empty();
    match t {
        CT::Tuple(ts) => {
            match f_alloc_tuple(w, at, path, ts, class, span, none, ls, g, 0) {
                Err(e) => Err(e),
                Ok(r) => {
                    Ok((SV::Tuple(r.0), r.1))
                },
            }
        },
        CT::Record(fs) => {
            let nof = Seq::<(Seq<char>, SV)>::empty();
            match f_alloc_record(w, at, path, fs, class, span, nof, ls, g, 0) {
                Err(e) => Err(e),
                Ok(r) => {
                    Ok((SV::Record(r.0), r.1))
                },
            }
        },
        CT::Maps(_f, i1, e1) => {
            match values(*i1) {
                Some(vals) => {
                    match f_alloc_elements(w, at, path, vals, *i1, *e1, class, span, none, ls, g, 0) {
                        Err(e) => Err(e),
                        Ok(r) => {
                            Ok((SV::Array(*i1, r.0), r.1))
                        },
                    }
                },
                None => {
                    Err(fault(w, at, span, "Finite type expected as the index of state variable \""@ + path + "\"."@))
                },
            }
        },
        CT::Data(id, _cs) => {
            if size(t) is None {
                Err(fault(w, at, span, "Finite type expected for state variable \""@ + path
                    + "\" (recursive datatype)."@))
            } else {
                match values(t) {
                    Some(vals) => {
                        if ls.len() >= u32::MAX {
                            Err(fault(w, at, span, "Too many leaves."@))
                        } else {
                            let lt = LT::Scalar(id, all_texts(t, vals));
                            Ok((SV::Sym(FE::Var(ls.len() as LeafId, false), lt), ls.push((path, lt, class))))
                        }
                    },
                    None => {
                        Err(fault(w, at, span, "Finite type expected for state variable \""@ + path
                            + "\" (recursive datatype)."@))
                    },
                }
            }
        },
        _ => {
            Err(fault(w, at, span, "Finite type expected for state variable \""@ + path
                + "\" (uninterpreted type)."@))
        },
    }
}

/// The parts of a tuple.
#[verifier::opaque]
pub open spec fn f_alloc_tuple(
    w: World,
    at: nat,
    path: Seq<char>,
    v: Seq<CT>,
    class: VarClass,
    span: Span,
    acc: Seq<SV>,
    ls: Seq<LeafV>,
    g: Build,
    i: int
) -> CR<(Seq<SV>, Seq<LeafV>)>
    decreases v.len() - i,
{
    if i < 0 || i >= v.len() {
        Ok((acc, ls))
    } else {
        match (g.alloc)(at, numbered(path, i), v[i], class, span, ls) {
            Err(e) => Err(e),
            Ok((v1, ls1)) => {
                let acc = acc.push(v1);
                let ls = ls1;
                f_alloc_tuple(w, at, path, v, class, span, acc, ls, g, i + 1)
            },
        }
    }
}

/// The fields of a record.
#[verifier::opaque]
pub open spec fn f_alloc_record(
    w: World,
    at: nat,
    path: Seq<char>,
    v: Seq<(Seq<char>, CT)>,
    class: VarClass,
    span: Span,
    acc: Seq<(Seq<char>, SV)>,
    ls: Seq<LeafV>,
    g: Build,
    i: int
) -> CR<(Seq<(Seq<char>, SV)>, Seq<LeafV>)>
    decreases v.len() - i,
{
    if i < 0 || i >= v.len() {
        Ok((acc, ls))
    } else {
        match (g.alloc)(at, dotted(path, v[i].0), v[i].1, class, span, ls) {
            Err(e) => Err(e),
            Ok((v1, ls1)) => {
                let acc = acc.push((v[i].0, v1));
                let ls = ls1;
                f_alloc_record(w, at, path, v, class, span, acc, ls, g, i + 1)
            },
        }
    }
}

/// The elements of an array.
#[verifier::opaque]
pub open spec fn f_alloc_elements(
    w: World,
    at: nat,
    path: Seq<char>,
    v: Seq<Val>,
    it: CT,
    et: CT,
    class: VarClass,
    span: Span,
    acc: Seq<SV>,
    ls: Seq<LeafV>,
    g: Build,
    i: int
) -> CR<(Seq<SV>, Seq<LeafV>)>
    decreases v.len() - i,
{
    if i < 0 || i >= v.len() {
        Ok((acc, ls))
    } else {
        match (g.alloc)(at, indexed(path, it, v[i]), et, class, span, ls) {
            Err(e) => Err(e),
            Ok((v1, ls1)) => {
                let acc = acc.push(v1);
                let ls = ls1;
                f_alloc_elements(w, at, path, v, it, et, class, span, acc, ls, g, i + 1)
            },
        }
    }
}

/// The predicates of a type, of a state variable.
#[verifier::opaque]
pub open spec fn f_subtype_of(
    w: World,
    at: nat,
    x: TypeV,
    skel: SV,
    span: Span,
    lo: Seq<(Seq<char>, SV)>,
    g: Build
) -> CR<Option<FE>>
{
    match x.kind {
        TypeKindV::Subtype(sp) => {
            match (g.subtype)(at, sp.ty, skel, span, lo) {
                Err(e) => Err(e),
                Ok(inner) => {
                    let lo2 = lo.push((sp.var.name, skel));
                    match (evaluation(w, DEPTH as nat).eval)(at, sp.pred, lo2) {
                        Err(e) => Err(e),
                        Ok(v) => {
                            match condition(v) {
                                Some(c) => {
                                    Ok(Some(also(inner, c)))
                                },
                                None => {
                                    Err(fault(w, at, span, "boolean expression expected"@))
                                },
                            }
                        },
                    }
                },
            }
        },
        _ => {
            Ok(None)
        },
    }
}

/// The rows of values of bound variables.
#[verifier::opaque]
pub open spec fn f_expand_bindings(
    w: World,
    at: nat,
    ds: Seq<VarDeclV>,
    lo: Seq<(Seq<char>, SV)>,
    g: Build
) -> CR<Seq<Seq<Val>>>
{
    let none = Seq::<Seq<Val>>::empty();
    match f_bound_columns(w, at, ds, lo, none, g, 0) {
        Err(e) => Err(e),
        Ok(cols) => {
            Ok(rows(cols, 0, start()))
        },
    }
}

/// The values of bound variables.
#[verifier::opaque]
pub open spec fn f_bound_columns(
    w: World,
    at: nat,
    v: Seq<VarDeclV>,
    lo: Seq<(Seq<char>, SV)>,
    acc: Seq<Seq<Val>>,
    g: Build,
    i: int
) -> CR<Seq<Seq<Val>>>
    decreases v.len() - i,
{
    if i < 0 || i >= v.len() {
        Ok(acc)
    } else {
        match (evaluation(w, DEPTH as nat).ctype)(at, v[i].ty, lo, Seq::<(nat, Seq<char>)>::empty()) {
            Err(e) => Err(e),
            Ok(t) => {
                match values(t) {
                    Some(vs) => {
                        let acc = acc + columns_of(v[i].names.len(), vs);
                        f_bound_columns(w, at, v, lo, acc, g, i + 1)
                    },
                    None => {
                        Err(fault(w, at, v[i].span, "Finite type expected."@))
                    },
                }
            },
        }
    }
}

/// The condition that a definition states.
#[verifier::opaque]
pub open spec fn f_def_body(
    w: World,
    at: nat,
    x: DefinitionV,
    next: bool,
    lo: Seq<(Seq<char>, SV)>,
    g: Build
) -> CR<FE>
{
    match x {
        DefinitionV::Forall(ds, defs) => {
            let names = all_names(ds, 0, Seq::empty());
            match f_expand_bindings(w, at, ds, lo, g) {
                Err(e) => Err(e),
                Ok(rows) => {
                    let none = Seq::<FE>::empty();
                    match f_def_rows(w, at, rows, names, defs, next, lo, none, g, 0) {
                        Err(e) => Err(e),
                        Ok(cs) => {
                            Ok(fe_and(cs))
                        },
                    }
                },
            }
        },
        DefinitionV::Simple(s) => {
            f_simple(w, at, s, next, lo, g)
        },
    }
}

/// The conditions that definitions state, for each row of values of variables.
#[verifier::opaque]
pub open spec fn f_def_rows(
    w: World,
    at: nat,
    v: Seq<Seq<Val>>,
    names: Seq<Seq<char>>,
    defs: Seq<DefinitionV>,
    next: bool,
    lo: Seq<(Seq<char>, SV)>,
    acc: Seq<FE>,
    g: Build,
    i: int
) -> CR<Seq<FE>>
    decreases v.len() - i,
{
    if i < 0 || i >= v.len() {
        Ok(acc)
    } else {
        let inner = with_row(lo, names, v[i]);
        match f_def_list(w, at, defs, next, inner, acc, g, 0) {
            Err(e) => Err(e),
            Ok(more) => {
                let acc = more;
                f_def_rows(w, at, v, names, defs, next, lo, acc, g, i + 1)
            },
        }
    }
}

/// The conditions that definitions state.
#[verifier::opaque]
pub open spec fn f_def_list(
    w: World,
    at: nat,
    v: Seq<DefinitionV>,
    next: bool,
    lo: Seq<(Seq<char>, SV)>,
    acc: Seq<FE>,
    g: Build,
    i: int
) -> CR<Seq<FE>>
    decreases v.len() - i,
{
    if i < 0 || i >= v.len() {
        Ok(acc)
    } else {
        match (g.def)(at, v[i], next, lo) {
            Err(e) => Err(e),
            Ok(c) => {
                let acc = acc.push(c);
                f_def_list(w, at, v, next, lo, acc, g, i + 1)
            },
        }
    }
}

/// The condition that a definition of one left side states.
#[verifier::opaque]
pub open spec fn f_simple(
    w: World,
    at: nat,
    s: SimpleDefinitionV,
    next: bool,
    lo: Seq<(Seq<char>, SV)>,
    g: Build
) -> CR<FE>
{
    match f_lhs(w, at, s.lhs, lo, g) {
        Ok(l) => {
            f_assign(w, at, l, s.rhs, s.span, lo, g)
        },
        Err(_e) => {
            f_symbolic_lhs(w, at, s.lhs, rhs_value(s.rhs).0, rhs_value(s.rhs).1, s.span, next, lo, g)
        },
    }
}

/// The condition that a left side has the value, or one of the values, of a right side.
#[verifier::opaque]
pub open spec fn f_assign(
    w: World,
    at: nat,
    l: SV,
    r: RhsV,
    span: Span,
    lo: Seq<(Seq<char>, SV)>,
    g: Build
) -> CR<FE>
{
    let p = rhs_value(r);
    if p.0 {
        f_assign_among(w, at, l, p.1, span, lo, g)
    } else {
        f_assign_value(w, at, l, p.1, span, lo, g)
    }
}

/// The condition that a left side has a value.
#[verifier::opaque]
pub open spec fn f_assign_value(
    w: World,
    at: nat,
    l: SV,
    e: ExprV,
    span: Span,
    lo: Seq<(Seq<char>, SV)>,
    g: Build
) -> CR<FE>
{
    match (evaluation(w, DEPTH as nat).eval)(at, e, lo) {
        Err(e) => Err(e),
        Ok(v) => {
            match sv_eq(l, v) {
                Some(c) => {
                    Ok(c)
                },
                None => {
                    Err(fault(w, at, span, "values that cannot be compared"@))
                },
            }
        },
    }
}

/// The condition that a left side has one of the values of a set.
#[verifier::opaque]
pub open spec fn f_assign_among(
    w: World,
    at: nat,
    l: SV,
    e: ExprV,
    span: Span,
    lo: Seq<(Seq<char>, SV)>,
    g: Build
) -> CR<FE>
{
    match (evaluation(w, DEPTH as nat).eval)(at, e, lo) {
        Err(e) => Err(e),
        Ok(v) => {
            let one = seq![l];
            match v_apply(w, at, v, one, span, evaluation(w, DEPTH as nat)) {
                Err(e) => Err(e),
                Ok(z) => {
                    match condition(z) {
                        Some(c) => {
                            Ok(c)
                        },
                        None => {
                            Err(fault(w, at, span, "boolean expression expected"@))
                        },
                    }
                },
            }
        },
    }
}

/// The part of a state variable that a left side with fixed indices speaks of.
#[verifier::opaque]
pub open spec fn f_lhs(w: World, at: nat, l: LhsV, lo: Seq<(Seq<char>, SV)>, g: Build) -> CR<SV>
{
    match local(lo, head_name(l)) {
        Some(v) => {
            f_lhs_steps(w, at, l.accesses, l.span, lo, v, g, 0)
        },
        None => {
            Err(fault(w, at, l.span, "Undeclared state variable \""@ + l.base.name + "\"."@))
        },
    }
}

/// The part that accesses with fixed indices lead to.
#[verifier::opaque]
pub open spec fn f_lhs_steps(
    w: World,
    at: nat,
    v: Seq<AccessV>,
    span: Span,
    lo: Seq<(Seq<char>, SV)>,
    acc: SV,
    g: Build,
    i: int
) -> CR<SV>
    decreases v.len() - i,
{
    if i < 0 || i >= v.len() {
        Ok(acc)
    } else {
        match f_lhs_step(w, at, v[i], span, lo, acc, g) {
            Err(e) => Err(e),
            Ok(t) => {
                let acc = t;
                f_lhs_steps(w, at, v, span, lo, acc, g, i + 1)
            },
        }
    }
}

/// The part that one access with a fixed index leads to.
#[verifier::opaque]
pub open spec fn f_lhs_step(
    w: World,
    at: nat,
    a: AccessV,
    span: Span,
    lo: Seq<(Seq<char>, SV)>,
    c: SV,
    g: Build
) -> CR<SV>
{
    match a {
        AccessV::Array(ie) => {
            match (evaluation(w, DEPTH as nat).eval)(at, ie, lo) {
                Err(e) => Err(e),
                Ok(iv) => {
                    match fixed_element(c, iv) {
                        Some(z) => {
                            Ok(z)
                        },
                        None => {
                            Err(fault(w, at, span, "Assignment index must be a constant."@))
                        },
                    }
                },
            }
        },
        AccessV::Record(f) => {
            match record_part(c, f.name) {
                Some(z) => {
                    Ok(z)
                },
                None => {
                    Err(fault(w, at, f.span, "Unknown record field \""@ + f.name + "\"."@))
                },
            }
        },
        AccessV::Tuple(n) => {
            match tuple_part(c, n as nat) {
                Some(z) => {
                    Ok(z)
                },
                None => {
                    Err(fault(w, at, span, "Tuple index out of bounds."@))
                },
            }
        },
        AccessV::Args(_e) => {
            Err(fault(w, at, span, "Function-application LHS is not supported."@))
        },
    }
}

/// The condition that a definition states whose left side has an index that depends on the state: in a transition the other parts keep their values.
#[verifier::opaque]
pub open spec fn f_symbolic_lhs(
    w: World,
    at: nat,
    l: LhsV,
    among: bool,
    e: ExprV,
    span: Span,
    next: bool,
    lo: Seq<(Seq<char>, SV)>,
    g: Build
) -> CR<FE>
{
    match local(lo, l.base.name) {
        Some(cur) => {
            if among {
                Err(fault(w, at, span, "IN selection with a state-dependent index is not supported."@))
            } else {
                f_symbolic_value(w, at, cur, l, e, span, next, lo, g)
            }
        },
        None => Err(fault(w, at, l.span, "Undeclared state variable \""@ + l.base.name + "\"."@)),
    }
}

/// The condition that a part of the state variable `cur` has the value of an expression.
#[verifier::opaque]
pub open spec fn f_symbolic_value(
    w: World,
    at: nat,
    cur: SV,
    l: LhsV,
    e: ExprV,
    span: Span,
    next: bool,
    lo: Seq<(Seq<char>, SV)>,
    g: Build,
) -> CR<FE> {
    match (evaluation(w, DEPTH as nat).eval)(at, e, lo) {
        Err(f) => Err(f),
        Ok(v) => match local(lo, head_name(l)) {
            Some(base) => f_symbolic_part(w, at, cur, base, v, l.accesses, span, l.next && next, lo, g),
            None => Err(fault(w, at, l.span, "Undeclared state variable \""@ + l.base.name + "\"."@)),
        },
    }
}

/// The condition that a part of a state variable has a value: the variable is `cur` with the part replaced, or the part
/// of `base` has the value.
#[verifier::opaque]
pub open spec fn f_symbolic_part(
    w: World,
    at: nat,
    cur: SV,
    base: SV,
    v: SV,
    acs: Seq<AccessV>,
    span: Span,
    replaces: bool,
    lo: Seq<(Seq<char>, SV)>,
    g: Build,
) -> CR<FE> {
    if replaces {
        match (evaluation(w, DEPTH as nat).update)(at, cur, acs, 0, v, span, lo) {
            Err(f) => Err(f),
            Ok(u) => f_compared(w, at, base, u, span),
        }
    } else {
        match f_select_steps(w, at, acs, span, lo, base, g, 0) {
            Err(f) => Err(f),
            Ok(part) => f_compared(w, at, part, v, span),
        }
    }
}

/// The condition that two values are equal.
#[verifier::opaque]
pub open spec fn f_compared(w: World, at: nat, a: SV, b: SV, span: Span) -> CR<FE> {
    match sv_eq(a, b) {
        Some(c) => Ok(c),
        None => Err(fault(w, at, span, "values that cannot be compared"@)),
    }
}

/// The part that accesses lead to.
#[verifier::opaque]
pub open spec fn f_select_steps(
    w: World,
    at: nat,
    v: Seq<AccessV>,
    span: Span,
    lo: Seq<(Seq<char>, SV)>,
    acc: SV,
    g: Build,
    i: int
) -> CR<SV>
    decreases v.len() - i,
{
    if i < 0 || i >= v.len() {
        Ok(acc)
    } else {
        match f_select_step(w, at, v[i], span, lo, acc, g) {
            Err(e) => Err(e),
            Ok(t) => {
                let acc = t;
                f_select_steps(w, at, v, span, lo, acc, g, i + 1)
            },
        }
    }
}

/// The part that one access leads to.
#[verifier::opaque]
pub open spec fn f_select_step(
    w: World,
    at: nat,
    a: AccessV,
    span: Span,
    lo: Seq<(Seq<char>, SV)>,
    c: SV,
    g: Build
) -> CR<SV>
{
    match a {
        AccessV::Array(ie) => {
            match (evaluation(w, DEPTH as nat).eval)(at, ie, lo) {
                Err(e) => Err(e),
                Ok(iv) => {
                    v_select(w, at, c, iv, span, evaluation(w, DEPTH as nat))
                },
            }
        },
        AccessV::Record(f) => {
            match record_part(c, f.name) {
                Some(z) => {
                    Ok(z)
                },
                None => {
                    Err(fault(w, at, f.span, "Unknown record field \""@ + f.name + "\"."@))
                },
            }
        },
        AccessV::Tuple(n) => {
            match tuple_part(c, n as nat) {
                Some(z) => {
                    Ok(z)
                },
                None => {
                    Err(fault(w, at, span, "Tuple index out of bounds."@))
                },
            }
        },
        AccessV::Args(_e) => {
            Err(fault(w, at, span, "Invalid LHS access."@))
        },
    }
}

/// The leaves that a definition defines.
#[verifier::opaque]
pub open spec fn f_heads_of(
    w: World,
    at: nat,
    x: DefinitionV,
    lo: Seq<(Seq<char>, SV)>,
    acc: Seq<LeafId>,
    g: Build
) -> CR<Seq<LeafId>>
{
    match x {
        DefinitionV::Forall(ds, defs) => {
            let names = all_names(ds, 0, Seq::empty());
            match f_expand_bindings(w, at, ds, lo, g) {
                Err(e) => Err(e),
                Ok(rows) => {
                    f_head_rows(w, at, rows, names, defs, lo, acc, g, 0)
                },
            }
        },
        DefinitionV::Simple(s) => {
            f_head_of(w, at, s.lhs, lo, acc, g)
        },
    }
}

/// The leaves that a left side speaks of.
#[verifier::opaque]
pub open spec fn f_head_of(
    w: World,
    at: nat,
    l: LhsV,
    lo: Seq<(Seq<char>, SV)>,
    acc: Seq<LeafId>,
    g: Build,
) -> CR<Seq<LeafId>> {
    match f_lhs(w, at, l, lo, g) {
        Ok(v) => Ok(sv_ids(v, acc)),
        Err(_e) => match local(lo, head_name(l)) {
            Some(v) => Ok(sv_ids(v, acc)),
            None => Ok(acc),
        },
    }
}

/// The leaves that definitions define, for each row of values of variables.
#[verifier::opaque]
pub open spec fn f_head_rows(
    w: World,
    at: nat,
    v: Seq<Seq<Val>>,
    names: Seq<Seq<char>>,
    defs: Seq<DefinitionV>,
    lo: Seq<(Seq<char>, SV)>,
    acc: Seq<LeafId>,
    g: Build,
    i: int
) -> CR<Seq<LeafId>>
    decreases v.len() - i,
{
    if i < 0 || i >= v.len() {
        Ok(acc)
    } else {
        let inner = with_row(lo, names, v[i]);
        match f_head_list(w, at, defs, inner, acc, g, 0) {
            Err(e) => Err(e),
            Ok(more) => {
                let acc = more;
                f_head_rows(w, at, v, names, defs, lo, acc, g, i + 1)
            },
        }
    }
}

/// The leaves that definitions define.
#[verifier::opaque]
pub open spec fn f_head_list(
    w: World,
    at: nat,
    v: Seq<DefinitionV>,
    lo: Seq<(Seq<char>, SV)>,
    acc: Seq<LeafId>,
    g: Build,
    i: int
) -> CR<Seq<LeafId>>
    decreases v.len() - i,
{
    if i < 0 || i >= v.len() {
        Ok(acc)
    } else {
        match (g.heads)(at, v[i], lo, acc) {
            Err(e) => Err(e),
            Ok(more) => {
                let acc = more;
                f_head_list(w, at, v, lo, acc, g, i + 1)
            },
        }
    }
}

/// The flat commands of a command that is no `ELSE`.
#[verifier::opaque]
pub open spec fn f_cmd_body(
    w: World,
    at: nat,
    x: SomeCommandV,
    next: bool,
    lo: Seq<(Seq<char>, SV)>,
    acc: Seq<Cmd>,
    g: Build
) -> CR<Seq<Cmd>>
{
    match x {
        SomeCommandV::Multi(ds, c, _s) => {
            let names = all_names(ds, 0, Seq::empty());
            match f_expand_bindings(w, at, ds, lo, g) {
                Err(e) => Err(e),
                Ok(rows) => {
                    f_cmd_rows(w, at, rows, names, *c, next, lo, acc, g, 0)
                },
            }
        },
        SomeCommandV::Guarded(c) => {
            f_guarded(w, at, c, next, lo, acc, g)
        },
    }
}

/// The flat commands of a command, for each row of values of variables.
#[verifier::opaque]
pub open spec fn f_cmd_rows(
    w: World,
    at: nat,
    v: Seq<Seq<Val>>,
    names: Seq<Seq<char>>,
    c: SomeCommandV,
    next: bool,
    lo: Seq<(Seq<char>, SV)>,
    acc: Seq<Cmd>,
    g: Build,
    i: int
) -> CR<Seq<Cmd>>
    decreases v.len() - i,
{
    if i < 0 || i >= v.len() {
        Ok(acc)
    } else {
        let inner = with_row(lo, names, v[i]);
        match (g.cmd)(at, c, next, inner, acc) {
            Err(e) => Err(e),
            Ok(more) => {
                let acc = more;
                f_cmd_rows(w, at, v, names, c, next, lo, acc, g, i + 1)
            },
        }
    }
}

/// The condition that a guard states.
#[verifier::opaque]
pub open spec fn f_guard_of(
    w: World,
    at: nat,
    e: ExprV,
    span: Span,
    lo: Seq<(Seq<char>, SV)>,
    g: Build
) -> CR<FE>
{
    match (evaluation(w, DEPTH as nat).eval)(at, e, lo) {
        Err(e) => Err(e),
        Ok(v) => {
            match condition(v) {
                Some(q) => {
                    Ok(q)
                },
                None => {
                    Err(fault(w, at, span, "boolean expression expected"@))
                },
            }
        },
    }
}

/// The condition that the assignments of a command state.
#[verifier::opaque]
pub open spec fn f_effect(
    w: World,
    at: nat,
    ds: Seq<DefinitionV>,
    next: bool,
    lo: Seq<(Seq<char>, SV)>,
    g: Build
) -> CR<FE>
{
    let none = Seq::<FE>::empty();
    match f_def_list(w, at, ds, next, lo, none, g, 0) {
        Err(e) => Err(e),
        Ok(cs) => {
            Ok(fe_and(cs))
        },
    }
}

/// The flat command of a guarded command that is no `ELSE`.
#[verifier::opaque]
pub open spec fn f_guarded(
    w: World,
    at: nat,
    c: GuardedCommandV,
    next: bool,
    lo: Seq<(Seq<char>, SV)>,
    acc: Seq<Cmd>,
    g: Build
) -> CR<Seq<Cmd>>
{
    f_guarded_opt(w, at, c.guard, c.span, c.assignments, next, lo, label_text(c.label), acc, g)
}

/// The flat command of assignments and a guard, where there is one.
#[verifier::opaque]
pub open spec fn f_guarded_opt(
    w: World,
    at: nat,
    ge: Option<ExprV>,
    span: Span,
    ds: Seq<DefinitionV>,
    next: bool,
    lo: Seq<(Seq<char>, SV)>,
    label: Option<Seq<char>>,
    acc: Seq<Cmd>,
    g: Build
) -> CR<Seq<Cmd>>
{
    match ge {
        None => {
            Ok(acc)
        },
        Some(e) => {
            f_guarded_by(w, at, e, span, ds, next, lo, label, acc, g)
        },
    }
}

/// The flat command of a guard and assignments.
#[verifier::opaque]
pub open spec fn f_guarded_by(
    w: World,
    at: nat,
    e: ExprV,
    span: Span,
    ds: Seq<DefinitionV>,
    next: bool,
    lo: Seq<(Seq<char>, SV)>,
    label: Option<Seq<char>>,
    acc: Seq<Cmd>,
    g: Build
) -> CR<Seq<Cmd>>
{
    match f_guard_of(w, at, e, span, lo, g) {
        Err(e) => Err(e),
        Ok(q) => {
            match f_effect(w, at, ds, next, lo, g) {
                Err(e) => Err(e),
                Ok(d) => {
                    Ok(acc.push(Cmd { label, guard: q, constraint: d }))
                },
            }
        },
    }
}

/// The flat commands of `ELSE` commands.
#[verifier::opaque]
pub open spec fn f_else_cmds(
    w: World,
    at: nat,
    v: Seq<SomeCommandV>,
    next: bool,
    lo: Seq<(Seq<char>, SV)>,
    neg: FE,
    acc: Seq<Cmd>,
    g: Build,
    i: int
) -> CR<Seq<Cmd>>
    decreases v.len() - i,
{
    if i < 0 || i >= v.len() {
        Ok(acc)
    } else {
        match v[i] {
            SomeCommandV::Guarded(c) => {
                match f_else_cmd(w, at, c, next, lo, neg, acc, g) {
                    Err(e) => Err(e),
                    Ok(more) => {
                        let acc = more;
                        f_else_cmds(w, at, v, next, lo, neg, acc, g, i + 1)
                    },
                }
            },
            _ => {
                f_else_cmds(w, at, v, next, lo, neg, acc, g, i + 1)
            },
        }
    }
}

/// The flat command of an `ELSE` command.
#[verifier::opaque]
pub open spec fn f_else_cmd(
    w: World,
    at: nat,
    c: GuardedCommandV,
    next: bool,
    lo: Seq<(Seq<char>, SV)>,
    neg: FE,
    acc: Seq<Cmd>,
    g: Build
) -> CR<Seq<Cmd>>
{
    f_else_opt(w, at, c.guard, c.assignments, next, lo, label_text(c.label), neg, acc, g)
}

/// The flat command of assignments under a given guard, where there is no guard of their own.
#[verifier::opaque]
pub open spec fn f_else_opt(
    w: World,
    at: nat,
    ge: Option<ExprV>,
    ds: Seq<DefinitionV>,
    next: bool,
    lo: Seq<(Seq<char>, SV)>,
    label: Option<Seq<char>>,
    neg: FE,
    acc: Seq<Cmd>,
    g: Build
) -> CR<Seq<Cmd>>
{
    match ge {
        Some(_e) => Ok(acc),
        None => match f_effect(w, at, ds, next, lo, g) {
            Err(e) => Err(e),
            Ok(d) => Ok(acc.push(Cmd { label, guard: neg, constraint: d })),
        },
    }
}

/// The flat commands of commands.
#[verifier::opaque]
pub open spec fn f_cmd_list(
    w: World,
    at: nat,
    v: Seq<SomeCommandV>,
    next: bool,
    lo: Seq<(Seq<char>, SV)>,
    acc: Seq<Cmd>,
    g: Build,
    i: int
) -> CR<Seq<Cmd>>
    decreases v.len() - i,
{
    if i < 0 || i >= v.len() {
        Ok(acc)
    } else {
        match (g.cmd)(at, v[i], next, lo, acc) {
            Err(e) => Err(e),
            Ok(more) => {
                let acc = more;
                f_cmd_list(w, at, v, next, lo, acc, g, i + 1)
            },
        }
    }
}

/// The flat commands of a choice; an `ELSE` command is guarded by the negation of the other guards.
#[verifier::opaque]
pub open spec fn f_commands(
    w: World,
    at: nat,
    cs: Seq<SomeCommandV>,
    next: bool,
    lo: Seq<(Seq<char>, SV)>,
    g: Build
) -> CR<Seq<Cmd>>
{
    let none = Seq::<Cmd>::empty();
    match f_cmd_list(w, at, cs, next, lo, none, g, 0) {
        Err(e) => Err(e),
        Ok(all) => {
            let neg = fe_not(fe_or(guards(all)));
            f_else_cmds(w, at, cs, next, lo, neg, all, g, 0)
        },
    }
}

/// State variables of one class and type.
#[verifier::opaque]
pub open spec fn f_base_names(
    w: World,
    at: nat,
    v: Seq<IdentV>,
    t: CT,
    class: VarClass,
    span: Span,
    amb: VarsV,
    e: ElabV,
    ls: Seq<LeafV>,
    g: Build,
    i: int
) -> CR<(ElabV, Seq<LeafV>)>
    decreases v.len() - i,
{
    if i < 0 || i >= v.len() {
        Ok((e, ls))
    } else {
        if field_place(e.vars, v[i].name, 0) is Some {
            f_base_names(w, at, v, t, class, span, amb, e, ls, g, i + 1)
        } else {
            match ambient(amb, v[i].name) {
                Some(x) => {
                    let y = VarE { class, ..x };
                    let e = with_var(e, v[i].name, y);
                    f_base_names(w, at, v, t, class, span, amb, e, ls, g, i + 1)
                },
                None => {
                    match (g.alloc)(at, v[i].name, t, class, span, ls) {
                        Err(e) => Err(e),
                        Ok((v1, ls1)) => {
                            let y = VarE { class, ctype: t, skel: v1 };
                            let e = with_var(e, v[i].name, y);
                            let ls = ls1;
                            f_base_names(w, at, v, t, class, span, amb, e, ls, g, i + 1)
                        },
                    }
                },
            }
        }
    }
}

/// State variables of one class.
#[verifier::opaque]
pub open spec fn f_base_groups(
    w: World,
    at: nat,
    v: Seq<VarDeclV>,
    class: VarClass,
    lo: Seq<(Seq<char>, SV)>,
    amb: VarsV,
    e: ElabV,
    ls: Seq<LeafV>,
    g: Build,
    i: int
) -> CR<(ElabV, Seq<LeafV>)>
    decreases v.len() - i,
{
    if i < 0 || i >= v.len() {
        Ok((e, ls))
    } else {
        match (evaluation(w, DEPTH as nat).ctype)(at, v[i].ty, lo, Seq::<(nat, Seq<char>)>::empty()) {
            Err(e) => Err(e),
            Ok(t) => {
                match f_base_names(w, at, v[i].names, t, class, v[i].span, amb, e, ls, g, 0) {
                    Err(e) => Err(e),
                    Ok((e1, ls1)) => {
                        let e = e1;
                        let ls = ls1;
                        f_base_groups(w, at, v, class, lo, amb, e, ls, g, i + 1)
                    },
                }
            },
        }
    }
}

/// The state variables of a base module.
#[verifier::opaque]
pub open spec fn f_base_vars(
    w: World,
    at: nat,
    v: Seq<BaseDeclV>,
    lo: Seq<(Seq<char>, SV)>,
    amb: VarsV,
    e: ElabV,
    ls: Seq<LeafV>,
    g: Build,
    i: int
) -> CR<(ElabV, Seq<LeafV>)>
    decreases v.len() - i,
{
    if i < 0 || i >= v.len() {
        Ok((e, ls))
    } else {
        match v[i] {
            BaseDeclV::Vars(c, ds) => {
                match f_base_groups(w, at, ds, c, lo, amb, e, ls, g, 0) {
                    Err(e) => Err(e),
                    Ok((e1, ls1)) => {
                        let e = e1;
                        let ls = ls1;
                        f_base_vars(w, at, v, lo, amb, e, ls, g, i + 1)
                    },
                }
            },
            _ => {
                f_base_vars(w, at, v, lo, amb, e, ls, g, i + 1)
            },
        }
    }
}

/// The predicates of the type of state variables.
#[verifier::opaque]
pub open spec fn f_sub_names(
    w: World,
    at: nat,
    v: Seq<IdentV>,
    t: TypeV,
    span: Span,
    lo: Seq<(Seq<char>, SV)>,
    e: ElabV,
    g: Build,
    i: int
) -> CR<ElabV>
    decreases v.len() - i,
{
    if i < 0 || i >= v.len() {
        Ok(e)
    } else {
        match field_place(e.vars, v[i].name, 0) {
            Some(p) => {
                match (g.subtype)(at, t, e.vars[p as int].1.skel, span, lo) {
                    Err(e) => Err(e),
                    Ok(c) => {
                        let e = with_constraint(e, c);
                        f_sub_names(w, at, v, t, span, lo, e, g, i + 1)
                    },
                }
            },
            None => {
                Err(fault(w, at, span, "Undeclared state variable \""@ + v[i].name + "\"."@))
            },
        }
    }
}

/// The predicates of the types of state variables of one class.
#[verifier::opaque]
pub open spec fn f_sub_groups(
    w: World,
    at: nat,
    v: Seq<VarDeclV>,
    lo: Seq<(Seq<char>, SV)>,
    e: ElabV,
    g: Build,
    i: int
) -> CR<ElabV>
    decreases v.len() - i,
{
    if i < 0 || i >= v.len() {
        Ok(e)
    } else {
        match f_sub_names(w, at, v[i].names, v[i].ty, v[i].span, lo, e, g, 0) {
            Err(e) => Err(e),
            Ok(e1) => {
                let e = e1;
                f_sub_groups(w, at, v, lo, e, g, i + 1)
            },
        }
    }
}

/// The predicates of the types of state variables.
#[verifier::opaque]
pub open spec fn f_sub_vars(
    w: World,
    at: nat,
    v: Seq<BaseDeclV>,
    lo: Seq<(Seq<char>, SV)>,
    e: ElabV,
    g: Build,
    i: int
) -> CR<ElabV>
    decreases v.len() - i,
{
    if i < 0 || i >= v.len() {
        Ok(e)
    } else {
        match v[i] {
            BaseDeclV::Vars(_c, ds) => {
                match f_sub_groups(w, at, ds, lo, e, g, 0) {
                    Err(e) => Err(e),
                    Ok(e1) => {
                        let e = e1;
                        f_sub_vars(w, at, v, lo, e, g, i + 1)
                    },
                }
            },
            _ => {
                f_sub_vars(w, at, v, lo, e, g, i + 1)
            },
        }
    }
}

/// The definitions that hold in every state.
#[verifier::opaque]
pub open spec fn f_invariant_defs(
    w: World,
    at: nat,
    v: Seq<DefinitionV>,
    lo: Seq<(Seq<char>, SV)>,
    e: ElabV,
    g: Build,
    i: int
) -> CR<ElabV>
    decreases v.len() - i,
{
    if i < 0 || i >= v.len() {
        Ok(e)
    } else {
        match (g.def)(at, v[i], false, lo) {
            Err(e) => Err(e),
            Ok(c) => {
                let e = with_invariant(e, c);
                let none = Seq::<LeafId>::empty();
                match (g.heads)(at, v[i], lo, none) {
                    Err(e) => Err(e),
                    Ok(hs) => {
                        let e = with_defined(e, hs);
                        f_invariant_defs(w, at, v, lo, e, g, i + 1)
                    },
                }
            },
        }
    }
}

/// What an initialization section says.
#[verifier::opaque]
pub open spec fn f_init_items(
    w: World,
    at: nat,
    v: Seq<DefOrCommandV>,
    lo: Seq<(Seq<char>, SV)>,
    e: ElabV,
    g: Build,
    i: int
) -> CR<ElabV>
    decreases v.len() - i,
{
    if i < 0 || i >= v.len() {
        Ok(e)
    } else {
        match v[i] {
            DefOrCommandV::Def(d) => {
                match (g.def)(at, d, false, lo) {
                    Err(e) => Err(e),
                    Ok(c) => {
                        let e = with_init_def(e, c);
                        f_init_items(w, at, v, lo, e, g, i + 1)
                    },
                }
            },
            DefOrCommandV::Commands(cs, _s) => {
                match f_commands(w, at, cs, false, lo, g) {
                    Err(e) => Err(e),
                    Ok(b) => {
                        let e = with_init_block(e, b);
                        f_init_items(w, at, v, lo, e, g, i + 1)
                    },
                }
            },
        }
    }
}

/// What a transition section says, and its choices.
#[verifier::opaque]
pub open spec fn f_trans_items(
    w: World,
    at: nat,
    v: Seq<DefOrCommandV>,
    lo: Seq<(Seq<char>, SV)>,
    e: ElabV,
    bs: Seq<Seq<Cmd>>,
    g: Build,
    i: int
) -> CR<(ElabV, Seq<Seq<Cmd>>)>
    decreases v.len() - i,
{
    if i < 0 || i >= v.len() {
        Ok((e, bs))
    } else {
        match v[i] {
            DefOrCommandV::Def(d) => {
                match (g.def)(at, d, true, lo) {
                    Err(e) => Err(e),
                    Ok(c) => {
                        let none = Seq::<LeafId>::empty();
                        match (g.heads)(at, d, lo, none) {
                            Err(e) => Err(e),
                            Ok(hs) => {
                                let e = with_defined(with_trans_def(e, c), hs);
                                f_trans_items(w, at, v, lo, e, bs, g, i + 1)
                            },
                        }
                    },
                }
            },
            DefOrCommandV::Commands(cs, _s) => {
                match f_commands(w, at, cs, true, lo, g) {
                    Err(e) => Err(e),
                    Ok(b) => {
                        let bs = bs.push(b);
                        f_trans_items(w, at, v, lo, e, bs, g, i + 1)
                    },
                }
            },
        }
    }
}

/// What the sections of a base module say.
#[verifier::opaque]
pub open spec fn f_sections(
    w: World,
    at: nat,
    v: Seq<BaseDeclV>,
    lo: Seq<(Seq<char>, SV)>,
    n: nat,
    e: ElabV,
    g: Build,
    i: int
) -> CR<ElabV>
    decreases v.len() - i,
{
    if i < 0 || i >= v.len() {
        Ok(e)
    } else {
        match v[i] {
            BaseDeclV::Vars(_c, _d) => {
                f_sections(w, at, v, lo, n, e, g, i + 1)
            },
            BaseDeclV::Definition(ds) => {
                match f_invariant_defs(w, at, ds, lo, e, g, 0) {
                    Err(e) => Err(e),
                    Ok(e1) => {
                        let e = e1;
                        f_sections(w, at, v, lo, n, e, g, i + 1)
                    },
                }
            },
            BaseDeclV::Initialization(ds) => {
                match f_init_items(w, at, ds, lo, e, g, 0) {
                    Err(e) => Err(e),
                    Ok(e1) => {
                        let e = e1;
                        f_sections(w, at, v, lo, n, e, g, i + 1)
                    },
                }
            },
            BaseDeclV::Transition(ds) => {
                let nob = Seq::<Seq<Cmd>>::empty();
                match f_trans_items(w, at, ds, lo, e, nob, g, 0) {
                    Err(e) => Err(e),
                    Ok((e1, bs)) => {
                        let e = with_trans(e1, section_trans(bs, e1.controlled, e1.def_next, n));
                        f_sections(w, at, v, lo, n, e, g, i + 1)
                    },
                }
            },
        }
    }
}

/// A base module.
#[verifier::opaque]
pub open spec fn f_base(
    w: World,
    at: nat,
    b: BaseModuleV,
    lo: Seq<(Seq<char>, SV)>,
    amb: VarsV,
    ls: Seq<LeafV>,
    g: Build
) -> CR<(ElabV, Seq<LeafV>)>
{
    let e0 = no_elab();
    match f_base_vars(w, at, b.decls, lo, amb, e0, ls, g, 0) {
        Err(e) => Err(e),
        Ok((e1, ls)) => {
            if ls.len() > u32::MAX {
                Err(fault(w, at, b.span, "Too many leaves."@))
            } else {
                match f_sub_vars(w, at, b.decls, lo, e1, g, 0) {
                    Err(e) => Err(e),
                    Ok(e2) => {
                        let lo2 = state_locals(lo, e2.vars, 0);
                        let n = ls.len();
                        match f_sections(w, at, b.decls, lo2, n, e2, g, 0) {
                            Err(e) => Err(e),
                            Ok(e3) => {
                                if !has_transition(b.decls) {
                                    Ok((as_part(stuttering(e3, n)), ls))
                                } else {
                                    Ok((as_part(e3), ls))
                                }
                            },
                        }
                    },
                }
            }
        },
    }
}

/// A module.
#[verifier::opaque]
pub open spec fn f_module_body(
    w: World,
    at: nat,
    x: ModuleV,
    lo: Seq<(Seq<char>, SV)>,
    amb: VarsV,
    ls: Seq<LeafV>,
    g: Build
) -> CR<(ElabV, VarsV, Seq<LeafV>)>
{
    match x.kind {
        ModuleKindV::Base(b) => {
            match f_base(w, at, b, lo, amb, ls, g) {
                Err(e) => Err(e),
                Ok((e, ls1)) => {
                    Ok((e, amb, ls1))
                },
            }
        },
        ModuleKindV::Instance(n, args) => {
            f_instance(w, at, n, args, x.span, lo, amb, ls, g)
        },
        ModuleKindV::Sync(a, b) => {
            f_composed(w, at, *a, *b, true, true, x.span, lo, amb, ls, g)
        },
        ModuleKindV::Async(a, b) => {
            f_composed(w, at, *a, *b, false, true, x.span, lo, amb, ls, g)
        },
        ModuleKindV::Observe(a, b) => {
            f_composed(w, at, *a, *b, true, false, x.span, lo, amb, ls, g)
        },
        _ => {
            f_module_rest(w, at, x, lo, amb, ls, g)
        },
    }
}

/// A module made of another.
#[verifier::opaque]
pub open spec fn f_module_rest(
    w: World,
    at: nat,
    x: ModuleV,
    lo: Seq<(Seq<char>, SV)>,
    amb: VarsV,
    ls: Seq<LeafV>,
    g: Build
) -> CR<(ElabV, VarsV, Seq<LeafV>)>
{
    match x.kind {
        ModuleKindV::MultiSync(d, m) => {
            f_multi(w, at, *d, *m, true, x.span, lo, amb, ls, g)
        },
        ModuleKindV::MultiAsync(d, m) => {
            f_multi(w, at, *d, *m, false, x.span, lo, amb, ls, g)
        },
        ModuleKindV::Hide(ids, m) => {
            match (g.module)(at, *m, lo, amb, ls) {
                Err(e) => Err(e),
                Ok((e, amb1, ls1)) => {
                    Ok((reclassed(e, ids, VarClass::Local), amb1, ls1))
                },
            }
        },
        ModuleKindV::NewOutput(ids, m) => {
            match (g.module)(at, *m, lo, amb, ls) {
                Err(e) => Err(e),
                Ok((e, amb1, ls1)) => {
                    Ok((reclassed(e, ids, VarClass::Output), amb1, ls1))
                },
            }
        },
        ModuleKindV::Rename(rs, m) => {
            let amb0 = amb;
            match f_rename_targets(w, at, rs, lo, amb, amb0, g, 0) {
                Err(e) => Err(e),
                Ok(amb2) => {
                    match (g.module)(at, *m, lo, amb2, ls) {
                        Err(e) => Err(e),
                        Ok((e, _amb1, ls1)) => {
                            let rv = renamed_vars(e.vars, rs, amb, ls1, 0, Seq::empty());
                            Ok((with_vars(e, rv.0), amb, rv.1))
                        },
                    }
                },
            }
        },
        ModuleKindV::With(ds, m) => {
            let front = Seq::<(Seq<char>, VarE)>::empty();
            match f_with_decls(w, at, ds, lo, front, amb, ls, g, 0) {
                Err(e) => Err(e),
                Ok((fr, amb1, ls1)) => {
                    match (g.module)(at, *m, lo, amb1, ls1) {
                        Err(e) => Err(e),
                        Ok((e, amb2, ls2)) => {
                            Ok((fronted(e, fr), amb2, ls2))
                        },
                    }
                },
            }
        },
        _ => {
            Err(fault(w, at, x.span, "Invalid module."@))
        },
    }
}

/// An instance of a declared module.
#[verifier::opaque]
pub open spec fn f_instance(
    w: World,
    at: nat,
    n: NameV,
    args: Seq<ExprV>,
    span: Span,
    lo: Seq<(Seq<char>, SV)>,
    amb: VarsV,
    ls: Seq<LeafV>,
    g: Build
) -> CR<(ElabV, VarsV, Seq<LeafV>)>
{
    match entry_at(w, at, n) {
        Some(found) => {
            match found.1 {
                EntryV::Module(_p, _s, def, ds) => {
                    let none = Seq::<SV>::empty();
                    match v_exprs(w, at, args, lo, none, evaluation(w, DEPTH as nat), 0) {
                        Err(e) => Err(e),
                        Ok(vs) => {
                            let names = all_names(ds, 0, Seq::empty());
                            if names.len() != vs.len() {
                                Err(fault(w, at, span, "Wrong number of module actuals."@))
                            } else {
                                let nolo = Seq::<(Seq<char>, SV)>::empty();
                                let inner = with_args(nolo, names, vs);
                                (g.module)(found.0, def, inner, amb, ls)
                            }
                        },
                    }
                },
                _ => {
                    Err(fault(w, at, span, "\""@ + n.id.name + "\" is not a module."@))
                },
            }
        },
        None => {
            Err(fault(w, at, span, "Unknown variable \""@ + n.id.name + "\"."@))
        },
    }
}

/// Two modules composed.
#[verifier::opaque]
pub open spec fn f_composed(
    w: World,
    at: nat,
    a: ModuleV,
    b: ModuleV,
    sync: bool,
    keep: bool,
    span: Span,
    lo: Seq<(Seq<char>, SV)>,
    amb: VarsV,
    ls: Seq<LeafV>,
    g: Build
) -> CR<(ElabV, VarsV, Seq<LeafV>)>
{
    match (g.module)(at, a, lo, amb, ls) {
        Err(e) => Err(e),
        Ok((ea, amb1, ls1)) => {
            let amb2 = shared(amb1, ea.vars, false, 0);
            match (g.module)(at, b, lo, amb2, ls1) {
                Err(e) => Err(e),
                Ok((eb, _amb3, ls)) => {
                    if ls.len() > u32::MAX {
                        Err(fault(w, at, span, "Too many leaves."@))
                    } else {
                        let amb4 = if keep { shared(
                            shared(amb1, eb.vars, true, 0),
                            ea.vars,
                            true,
                            0
                        ) } else { amb1 };
                        let r = merged_elab(ea, eb, sync, ls);
                        Ok((r.0, amb4, r.1))
                    }
                },
            }
        },
    }
}

/// A module composed with itself over an index type.
#[verifier::opaque]
pub open spec fn f_multi(
    w: World,
    at: nat,
    d: VarDeclV,
    m: ModuleV,
    sync: bool,
    span: Span,
    lo: Seq<(Seq<char>, SV)>,
    amb: VarsV,
    ls: Seq<LeafV>,
    g: Build
) -> CR<(ElabV, VarsV, Seq<LeafV>)>
{
    match (evaluation(w, DEPTH as nat).ctype)(at, d.ty, lo, Seq::<(nat, Seq<char>)>::empty()) {
        Err(e) => Err(e),
        Ok(t) => {
            match values(t) {
                Some(vals) => {
                    let noe = Seq::<ElabV>::empty();
                    match f_copies(w, at, vals, d.names, m, lo, noe, amb, ls, g, 0) {
                        Err(e) => Err(e),
                        Ok((es, amb1, ls)) => {
                            if ls.len() > u32::MAX {
                                Err(fault(w, at, span, "Too many leaves."@))
                            } else {
                                if es.len() >= usize::MAX {
                                    Err(fault(w, at, span, "Too many leaves."@))
                                } else {
                                    let r = merged_multi(es, t, vals, sync, ls);
                                    Ok((r.0, amb1, r.1))
                                }
                            }
                        },
                    }
                },
                None => {
                    Err(fault(w, at, span, "Finite type expected in multi-composition."@))
                },
            }
        },
    }
}

/// The copies of a module, one for each value of an index type.
#[verifier::opaque]
pub open spec fn f_copies(
    w: World,
    at: nat,
    v: Seq<Val>,
    ids: Seq<IdentV>,
    m: ModuleV,
    lo: Seq<(Seq<char>, SV)>,
    es: Seq<ElabV>,
    amb: VarsV,
    ls: Seq<LeafV>,
    g: Build,
    i: int
) -> CR<(Seq<ElabV>, VarsV, Seq<LeafV>)>
    decreases v.len() - i,
{
    if i < 0 || i >= v.len() {
        Ok((es, amb, ls))
    } else {
        let inner = with_first(lo, ids, SV::Ground(v[i]));
        match (g.module)(at, m, inner, amb, ls) {
            Err(e) => Err(e),
            Ok((e, amb1, ls1)) => {
                let amb = shared(amb1, e.vars, true, 0);
                let ls = ls1;
                let es = es.push(e);
                f_copies(w, at, v, ids, m, lo, es, amb, ls, g, i + 1)
            },
        }
    }
}

/// The variables that a renamed module sees: those around it, and under the old names what the new ones stand for.
#[verifier::opaque]
pub open spec fn f_rename_targets(
    w: World,
    at: nat,
    v: Seq<(LhsV, LhsV)>,
    lo: Seq<(Seq<char>, SV)>,
    amb: VarsV,
    acc: VarsV,
    g: Build,
    i: int
) -> CR<VarsV>
    decreases v.len() - i,
{
    if i < 0 || i >= v.len() {
        Ok(acc)
    } else {
        match ambient(amb, v[i].1.base.name) {
            Some(x) => {
                let sk0 = x.skel;
                match f_slice_skel(w, at, v[i].1.accesses, v[i].1.span, lo, sk0, g, 0) {
                    Err(e) => Err(e),
                    Ok(sk) => {
                        let ct0 = x.ctype;
                        match f_slice_ctype(w, at, v[i].1.accesses, v[i].1.span, ct0, g, 0) {
                            Err(e) => Err(e),
                            Ok(ct) => {
                                let y = VarE { class: x.class, ctype: ct, skel: sk };
                                let acc = acc.push((v[i].0.base.name, y));
                                f_rename_targets(w, at, v, lo, amb, acc, g, i + 1)
                            },
                        }
                    },
                }
            },
            None => {
                if v[i].1.accesses.len() == 0 {
                    f_rename_targets(w, at, v, lo, amb, acc, g, i + 1)
                } else {
                    Err(fault(w, at, v[i].1.span, "Undeclared state variable \""@ + v[i].1.base.name + "\"."@))
                }
            },
        }
    }
}

/// The part of a state variable that a renaming leads to.
#[verifier::opaque]
pub open spec fn f_slice_skel(
    w: World,
    at: nat,
    v: Seq<AccessV>,
    span: Span,
    lo: Seq<(Seq<char>, SV)>,
    acc: SV,
    g: Build,
    i: int
) -> CR<SV>
    decreases v.len() - i,
{
    if i < 0 || i >= v.len() {
        Ok(acc)
    } else {
        match f_slice_step(w, at, v[i], span, lo, acc, g) {
            Err(e) => Err(e),
            Ok(t) => {
                let acc = t;
                f_slice_skel(w, at, v, span, lo, acc, g, i + 1)
            },
        }
    }
}

/// The part that one access of a renaming leads to.
#[verifier::opaque]
pub open spec fn f_slice_step(
    w: World,
    at: nat,
    a: AccessV,
    span: Span,
    lo: Seq<(Seq<char>, SV)>,
    c: SV,
    g: Build
) -> CR<SV>
{
    match a {
        AccessV::Array(ie) => {
            match (evaluation(w, DEPTH as nat).eval)(at, ie, lo) {
                Err(e) => Err(e),
                Ok(iv) => {
                    match skel_element(c, iv) {
                        Some(z) => {
                            Ok(z)
                        },
                        None => {
                            Err(fault(w, at, span, "Invalid rename target access."@))
                        },
                    }
                },
            }
        },
        AccessV::Record(f) => {
            match record_part(c, f.name) {
                Some(z) => {
                    Ok(z)
                },
                None => {
                    Err(fault(w, at, span, "Unknown field \""@ + f.name + "\"."@))
                },
            }
        },
        AccessV::Tuple(n) => {
            match tuple_part(c, n as nat) {
                Some(z) => {
                    Ok(z)
                },
                None => {
                    Err(fault(w, at, span, "Tuple index out of bounds."@))
                },
            }
        },
        AccessV::Args(_e) => {
            Err(fault(w, at, span, "Invalid rename target access."@))
        },
    }
}

/// The type of the part of a state variable that a renaming leads to.
#[verifier::opaque]
pub open spec fn f_slice_ctype(
    w: World,
    at: nat,
    v: Seq<AccessV>,
    span: Span,
    acc: CT,
    g: Build,
    i: int
) -> CR<CT>
    decreases v.len() - i,
{
    if i < 0 || i >= v.len() {
        Ok(acc)
    } else {
        match type_part(acc, v[i]) {
            Some(t) => {
                let acc = t;
                f_slice_ctype(w, at, v, span, acc, g, i + 1)
            },
            None => {
                Err(fault(w, at, span, "Invalid rename target access."@))
            },
        }
    }
}

/// The variables that a `WITH` module adds.
#[verifier::opaque]
pub open spec fn f_with_decls(
    w: World,
    at: nat,
    v: Seq<NewVarDeclV>,
    lo: Seq<(Seq<char>, SV)>,
    fr: VarsV,
    amb: VarsV,
    ls: Seq<LeafV>,
    g: Build,
    i: int
) -> CR<(VarsV, VarsV, Seq<LeafV>)>
    decreases v.len() - i,
{
    if i < 0 || i >= v.len() {
        Ok((fr, amb, ls))
    } else {
        match f_with_groups(w, at, v[i].decls, v[i].class, lo, fr, amb, ls, g, 0) {
            Err(e) => Err(e),
            Ok((f1, a1, l1)) => {
                let fr = f1;
                let amb = a1;
                let ls = l1;
                f_with_decls(w, at, v, lo, fr, amb, ls, g, i + 1)
            },
        }
    }
}

/// Added variables of one class.
#[verifier::opaque]
pub open spec fn f_with_groups(
    w: World,
    at: nat,
    v: Seq<VarDeclV>,
    class: VarClass,
    lo: Seq<(Seq<char>, SV)>,
    fr: VarsV,
    amb: VarsV,
    ls: Seq<LeafV>,
    g: Build,
    i: int
) -> CR<(VarsV, VarsV, Seq<LeafV>)>
    decreases v.len() - i,
{
    if i < 0 || i >= v.len() {
        Ok((fr, amb, ls))
    } else {
        match (evaluation(w, DEPTH as nat).ctype)(at, v[i].ty, lo, Seq::<(nat, Seq<char>)>::empty()) {
            Err(e) => Err(e),
            Ok(t) => {
                match f_with_names(w, at, v[i].names, t, class, v[i].span, fr, amb, ls, g, 0) {
                    Err(e) => Err(e),
                    Ok((f1, a1, l1)) => {
                        let fr = f1;
                        let amb = a1;
                        let ls = l1;
                        f_with_groups(w, at, v, class, lo, fr, amb, ls, g, i + 1)
                    },
                }
            },
        }
    }
}

/// Added variables of one class and type.
#[verifier::opaque]
pub open spec fn f_with_names(
    w: World,
    at: nat,
    v: Seq<IdentV>,
    t: CT,
    class: VarClass,
    span: Span,
    fr: VarsV,
    amb: VarsV,
    ls: Seq<LeafV>,
    g: Build,
    i: int
) -> CR<(VarsV, VarsV, Seq<LeafV>)>
    decreases v.len() - i,
{
    if i < 0 || i >= v.len() {
        Ok((fr, amb, ls))
    } else {
        match ambient(amb, v[i].name) {
            Some(x) => {
                let amb = amb.push((v[i].name, x));
                let fr = fr.push((v[i].name, x));
                f_with_names(w, at, v, t, class, span, fr, amb, ls, g, i + 1)
            },
            None => {
                match (g.alloc)(at, v[i].name, t, class, span, ls) {
                    Err(e) => Err(e),
                    Ok((v1, ls1)) => {
                        let x = VarE { class, ctype: t, skel: v1 };
                        let amb = amb.push((v[i].name, x));
                        let fr = fr.push((v[i].name, x));
                        let ls = ls1;
                        f_with_names(w, at, v, t, class, span, fr, amb, ls, g, i + 1)
                    },
                }
            },
        }
    }
}

/// The elaboration of modules of nesting depth up to `k`.
pub closed spec fn build(w: World, k: nat) -> Build
    decreases k,
{
    if k == 0 {
        Build {
            alloc: |at: nat, path: Seq<char>, t: CT, class: VarClass, span: Span, ls: Seq<LeafV>| Err(CEV::Deep),
            subtype: |at: nat, x: TypeV, skel: SV, span: Span, lo: Seq<(Seq<char>, SV)>| Err(CEV::Deep),
            def: |at: nat, x: DefinitionV, next: bool, lo: Seq<(Seq<char>, SV)>| Err(CEV::Deep),
            heads: |at: nat, x: DefinitionV, lo: Seq<(Seq<char>, SV)>, acc: Seq<LeafId>| Err(CEV::Deep),
            cmd: |at: nat, x: SomeCommandV, next: bool, lo: Seq<(Seq<char>, SV)>, acc: Seq<Cmd>| Err(CEV::Deep),
            module: |at: nat, x: ModuleV, lo: Seq<(Seq<char>, SV)>, amb: VarsV, ls: Seq<LeafV>| Err(CEV::Deep),
        }
    } else {
        let g = build(w, (k - 1) as nat);
        Build {
            alloc: |at: nat, path: Seq<char>, t: CT, class: VarClass, span: Span, ls: Seq<LeafV>| f_allocated(
                w,
                at,
                path,
                t,
                class,
                span,
                ls,
                g
            ),
            subtype: |at: nat, x: TypeV, skel: SV, span: Span, lo: Seq<(Seq<char>, SV)>| f_subtype_of(w, at, x, skel, span, lo, g),
            def: |at: nat, x: DefinitionV, next: bool, lo: Seq<(Seq<char>, SV)>| f_def_body(w, at, x, next, lo, g),
            heads: |at: nat, x: DefinitionV, lo: Seq<(Seq<char>, SV)>, acc: Seq<LeafId>| f_heads_of(w, at, x, lo, acc, g),
            cmd: |at: nat, x: SomeCommandV, next: bool, lo: Seq<(Seq<char>, SV)>, acc: Seq<Cmd>| f_cmd_body(w, at, x, next, lo, acc, g),
            module: |at: nat, x: ModuleV, lo: Seq<(Seq<char>, SV)>, amb: VarsV, ls: Seq<LeafV>| f_module_body(w, at, x, lo, amb, ls, g),
        }
    }
}

/// The elaboration of the parts of a module goes by the rules.
pub proof fn build_rules(w: World, k: nat)
    ensures
        k == 0 ==> forall|at: nat, path: Seq<char>, t: CT, class: VarClass, span: Span, ls: Seq<LeafV>| #[trigger] (build(w, k).alloc)(at, path, t, class, span, ls)
            == Err::<(SV, Seq<LeafV>), CEV>(CEV::Deep),
        k > 0 ==> forall|at: nat, path: Seq<char>, t: CT, class: VarClass, span: Span, ls: Seq<LeafV>| #[trigger] (build(w, k).alloc)(at, path, t, class, span, ls)
            == f_allocated(
            w,
            at,
            path,
            t,
            class,
            span,
            ls,
            build(w, (k - 1) as nat)
        ),
        k == 0 ==> forall|at: nat, x: TypeV, skel: SV, span: Span, lo: Seq<(Seq<char>, SV)>| #[trigger] (build(w, k).subtype)(at, x, skel, span, lo)
            == Err::<Option<FE>, CEV>(CEV::Deep),
        k > 0 ==> forall|at: nat, x: TypeV, skel: SV, span: Span, lo: Seq<(Seq<char>, SV)>| #[trigger] (build(w, k).subtype)(at, x, skel, span, lo)
            == f_subtype_of(
            w,
            at,
            x,
            skel,
            span,
            lo,
            build(w, (k - 1) as nat)
        ),
        k == 0 ==> forall|at: nat, x: DefinitionV, next: bool, lo: Seq<(Seq<char>, SV)>| #[trigger] (build(w, k).def)(at, x, next, lo)
            == Err::<FE, CEV>(CEV::Deep),
        k > 0 ==> forall|at: nat, x: DefinitionV, next: bool, lo: Seq<(Seq<char>, SV)>| #[trigger] (build(w, k).def)(at, x, next, lo)
            == f_def_body(
            w,
            at,
            x,
            next,
            lo,
            build(w, (k - 1) as nat)
        ),
        k == 0 ==> forall|at: nat, x: DefinitionV, lo: Seq<(Seq<char>, SV)>, acc: Seq<LeafId>| #[trigger] (build(w, k).heads)(at, x, lo, acc)
            == Err::<Seq<LeafId>, CEV>(CEV::Deep),
        k > 0 ==> forall|at: nat, x: DefinitionV, lo: Seq<(Seq<char>, SV)>, acc: Seq<LeafId>| #[trigger] (build(w, k).heads)(at, x, lo, acc)
            == f_heads_of(
            w,
            at,
            x,
            lo,
            acc,
            build(w, (k - 1) as nat)
        ),
        k == 0 ==> forall|at: nat, x: SomeCommandV, next: bool, lo: Seq<(Seq<char>, SV)>, acc: Seq<Cmd>| #[trigger] (build(w, k).cmd)(at, x, next, lo, acc)
            == Err::<Seq<Cmd>, CEV>(CEV::Deep),
        k > 0 ==> forall|at: nat, x: SomeCommandV, next: bool, lo: Seq<(Seq<char>, SV)>, acc: Seq<Cmd>| #[trigger] (build(w, k).cmd)(at, x, next, lo, acc)
            == f_cmd_body(
            w,
            at,
            x,
            next,
            lo,
            acc,
            build(w, (k - 1) as nat)
        ),
        k == 0 ==> forall|at: nat, x: ModuleV, lo: Seq<(Seq<char>, SV)>, amb: VarsV, ls: Seq<LeafV>| #[trigger] (build(w, k).module)(at, x, lo, amb, ls)
            == Err::<(ElabV, VarsV, Seq<LeafV>), CEV>(CEV::Deep),
        k > 0 ==> forall|at: nat, x: ModuleV, lo: Seq<(Seq<char>, SV)>, amb: VarsV, ls: Seq<LeafV>| #[trigger] (build(w, k).module)(at, x, lo, amb, ls)
            == f_module_body(
            w,
            at,
            x,
            lo,
            amb,
            ls,
            build(w, (k - 1) as nat)
        ),
{
    reveal_with_fuel(build, 1);
}

} // verus!
