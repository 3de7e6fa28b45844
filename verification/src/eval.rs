//! The evaluation of expressions to symbolic values, and of type expressions to types with bounds.

use crate::ast::{
    access_models, constructor_models, expr_models, field_decl_models, ident_expr_pairs, ident_models,
    let_decl_models, type_models, var_decl_models, Access, BinOp, Constructor, Expr, ExprKind, FieldDecl, Ident,
    LetDecl, Name, Quantifier, SalContext, Type, TypeDef, TypeKind, UnOp, VarDecl,
};
use crate::builtins::{apply_builtin, unpack};
use crate::calc::{
    add_args, add_busy, add_first, add_local, add_row, append_columns, append_ctypes, apply_data, bound_expr,
    busy_views, combine, equal_to, find_field_place, find_local, find_plain_type, find_plain_value,
    find_record_part, find_size, find_tuple_part, insert_ctype, insert_sval, is_busy, is_listed, list_all_names,
    list_elements, list_names, local, make_next, make_range, merged_value, numeric_only, one_sval, pack_args,
    raise_value, ring_chain, ring_name, set_field, set_sval, shift,
};
use crate::ctype::{all_rows, ct_fields, ct_models, ctor_models, row_models, rows, values, CType};
use crate::env::{
    binds, context_views, find_binding, find_instance, find_symbol, inst_views, opt_type_def, symbol_views, text3,
    Bind, Binding, Entry, Instance,
};
use crate::fexpr::{opt_int, FExpr, LeafType};
use crate::judgement::{symbol_at, symbols_of, World};
use crate::meaning::{
    ctor_member, data_member, element_at, entry_at, enum_element, evaluation, evaluation_rules, fault, from_at,
    given_at, ident_place, key_at, name_place, ring_at, v_apply, v_arguments, v_array, v_assignments, v_binary,
    v_bound, v_builtin, v_conditional, v_constant, v_constructors, v_defined_type, v_domains, v_elements, v_entries,
    v_eval_binder, v_eval_inner, v_eval_part, v_eval_rest, v_eval_use, v_exprs, v_fields_of, v_fraction,
    v_instances, v_lets, v_member, v_name, v_named_type, v_quantified, v_ring, v_select, v_set_size, v_type_of,
    v_types_of, v_unary, v_update_all, v_update_at, v_update_field, v_update_part, v_update_step,
};
use crate::num::{Int, Rat};
use crate::operators::{choose_value, eval_binary, eval_unary};
use crate::parser::opt_expr;
use crate::span::Span;
use crate::sval::{copy_locals, copy_svals, opt_sv, select_indexed, sv_fields, sv_models, Closure, SVal, SetRepr};
use crate::text::{own, same, views};
use crate::types::{SemType, Tid, TypeId};
use crate::value::{models, Value};
use crate::wfc::{is_unbounded, CheckError, Checker};
use vstd::prelude::*;

verus! {

fn find_ident(ids: &Vec<Ident>, name: &String) -> (r: Option<usize>)
    ensures
        match (r, ident_place(ident_models(ids@), name@, 0)) {
            (Some(i), Some(j)) => i == j,
            (None, None) => true,
            _ => false,
        },
{
    let mut i: usize = 0;
    while i < ids.len()
        invariant
            ident_place(ident_models(ids@), name@, 0) == ident_place(ident_models(ids@), name@, i as int),
        decreases ids.len() - i,
    {
        let ghost m = ids@[i as int].model();
        assert(ident_models(ids@)[i as int] == m);
        if ids[i].name == *name {
            return Some(i);
        }
        i += 1;
    }
    None
}

fn find_name(ns: &Vec<String>, name: &String) -> (r: Option<usize>)
    ensures
        match (r, name_place(views(ns@), name@, 0)) {
            (Some(i), Some(j)) => i == j,
            (None, None) => true,
            _ => false,
        },
{
    let mut i: usize = 0;
    while i < ns.len()
        invariant
            name_place(views(ns@), name@, 0) == name_place(views(ns@), name@, i as int),
        decreases ns.len() - i,
    {
        assert(views(ns@)[i as int] == ns@[i as int]@);
        if ns[i] == *name {
            return Some(i);
        }
        i += 1;
    }
    None
}

fn find_ctor_member(cs: &Vec<Constructor>, tid: TypeId, name: &String) -> (r: Option<SVal>)
    ensures
        opt_sv(r) == ctor_member(constructor_models(cs@), tid@, name@, 0),
{
    let ghost ms = constructor_models(cs@);
    let mut i: usize = 0;
    while i < cs.len()
        invariant
            i <= cs@.len(),
            ms == constructor_models(cs@),
            ctor_member(ms, tid@, name@, 0) == ctor_member(ms, tid@, name@, i as int),
        decreases cs.len() - i,
    {
        let ghost m = cs@[i as int].model();
        let ghost nm = cs@[i as int].name.model();
        assert(ms[i as int] == m);
        let c = &cs[i].name.name;
        let fields = list_all_names(&cs[i].accessors);
        if *name == *c {
            if fields.len() == 0 {
                let none: Vec<Value> = Vec::new();
                assert(models(none@) =~= Seq::empty());
                return Some(SVal::Ground(Value::Data(tid.clone(), c.clone(), none)));
            }
            return Some(SVal::Fun(Closure::Ctor(tid.clone(), c.clone(), fields.len())));
        }
        let test = text3(c.as_str(), "?", "");
        proof {
            reveal_strlit("");
            assert(test@ =~= c@ + "?"@);
        }
        if *name == test {
            return Some(SVal::Fun(Closure::Recognizer(c.clone())));
        }
        match find_name(&fields, name) {
            Some(j) => {
                return Some(SVal::Fun(Closure::Accessor(c.clone(), j)));
            },
            None => {},
        }
        i += 1;
    }
    None
}

/// Evaluates expressions in the instances of contexts.
pub struct Flattener<'e> {
    /// The instances; the first is the prelude.
    pub insts: &'e Vec<Instance>,
    /// The known contexts.
    pub lib: &'e Vec<SalContext>,
}

impl<'e> Flattener<'e> {
    /// Where it evaluates.
    pub open spec fn model(&self) -> World {
        World { insts: inst_views(self.insts@), lib: context_views(self.lib@), here: 0 }
    }

    /// An error at a place of an instance.
    pub(crate) fn fault(&self, at: usize, span: Span, msg: String) -> (r: CheckError)
        ensures
            r.model() == fault(self.model(), at as nat, span, msg@),
    {
        if at < self.insts.len() {
            assert(self.model().insts[at as int] == self.insts@[at as int].model());
            CheckError::Semantic(self.insts[at].name.clone(), span, msg)
        } else {
            let name = own("");
            proof {
                reveal_strlit("");
                assert(name@ =~= Seq::empty());
            }
            CheckError::Semantic(name, span, msg)
        }
    }

    fn tid_of(&self, id: usize, name: &String) -> (r: TypeId)
        ensures
            r@ == (Tid { ctx: key_at(self.model(), id as nat), name: name@ }),
    {
        if id < self.insts.len() {
            assert(self.model().insts[id as int] == self.insts@[id as int].model());
            TypeId { ctx: self.insts[id].key.clone(), name: name.clone() }
        } else {
            let ctx = own("");
            proof {
                reveal_strlit("");
                assert(ctx@ =~= Seq::empty());
            }
            TypeId { ctx, name: name.clone() }
        }
    }

    fn find_given(&self, id: usize, name: &String) -> (r: Option<&'e Binding>)
        ensures
            match (r, given_at(self.model(), id as nat, name@)) {
                (Some(a), Some(b)) => a.model() == b,
                (None, None) => true,
                _ => false,
            },
    {
        if id < self.insts.len() {
            assert(self.model().insts[id as int] == self.insts@[id as int].model());
            find_binding(&self.insts[id].bindings, name)
        } else {
            None
        }
    }

    fn find_from(&self, id: usize) -> (r: usize)
        ensures
            r == from_at(self.model(), id as nat),
    {
        if id < self.insts.len() {
            assert(self.model().insts[id as int] == self.insts@[id as int].model());
            self.insts[id].from
        } else {
            0
        }
    }

    pub(crate) fn find_entry(&self, at: usize, n: &Name) -> (r: Option<(usize, &'e Entry)>)
        ensures
            match (r, entry_at(self.model(), at as nat, n.model())) {
                (Some(a), Some(b)) => a.0 == b.0 && a.1.model() == b.1,
                (None, None) => true,
                _ => false,
            },
    {
        proof {
            reveal(entry_at);
        }
        let c = Checker { insts: self.insts, lib: self.lib, here: at };
        let mut scope: Vec<Bind> = Vec::new();
        proof {
            assert(binds(scope@) =~= Seq::empty());
            assert(c.model() == World { here: at as nat, ..self.model() });
        }
        match c.lookup_entry_pub(n, &mut scope) {
            Ok(x) => Some(x),
            Err(_) => None,
        }
    }

    pub(crate) fn find_symbol_at(&self, id: usize, name: &String) -> (r: Option<&'e Entry>)
        ensures
            match (r, symbol_at(self.model(), id as nat, name@)) {
                (Some(a), Some(b)) => a.model() == b,
                (None, None) => true,
                _ => false,
            },
    {
        if id < self.insts.len() {
            assert(self.model().insts[id as int] == self.insts@[id as int].model());
            find_symbol(&self.insts[id].symbols, name)
        } else {
            None
        }
    }

    fn find_enum_element(&self, id: usize, name: &String, sem: &SemType) -> (r: Option<SVal>)
        ensures
            opt_sv(r) == enum_element(self.model(), id as nat, name@, sem.model()),
    {
        match sem {
            SemType::Scalar(tid) => match self.find_symbol_at(id, &tid.name) {
                Some(Entry::Type(_s, d)) => {
                    let ghost dm = opt_type_def(*d);
                    match d {
                        Some(TypeDef::Scalar(ids)) => match find_ident(ids, name) {
                            Some(i) => Some(SVal::Ground(Value::Scalar(tid.clone(), i))),
                            None => None,
                        },
                        _ => None,
                    }
                },
                _ => None,
            },
            _ => None,
        }
    }

    fn find_element(&self, id: usize, name: &String, sem: &SemType) -> (r: Option<SVal>)
        ensures
            opt_sv(r) == element_at(self.model(), id as nat, name@, sem.model()),
    {
        match self.find_enum_element(id, name, sem) {
            Some(v) => Some(v),
            None => {
                if id >= self.insts.len() {
                    return None;
                }
                let ghost w = self.model();
                let ghost syms = symbols_of(w, id as nat);
                let ghost key = key_at(w, id as nat);
                assert(w.insts[id as int] == self.insts@[id as int].model());
                let v = &self.insts[id].symbols;
                let mut i: usize = 0;
                while i < v.len()
                    invariant
                        i <= v@.len(),
                        syms == symbol_views(v@),
                        id < self.insts@.len(),
                        v == self.insts@[id as int].symbols,
                        key == self.insts@[id as int].key@,
                        w == self.model(),
                        enum_element(w, id as nat, name@, sem.model()) is None,
                        syms == symbols_of(w, id as nat),
                        key == key_at(w, id as nat),
                        data_member(syms, key, name@, 0) == data_member(syms, key, name@, i as int),
                    decreases v.len() - i,
                {
                    assert(syms[i as int] == (v@[i as int].0@, v@[i as int].1.model()));
                    match &v[i].1 {
                        Entry::Type(_s, d) => {
                            let ghost dm = opt_type_def(*d);
                            match d {
                                Some(TypeDef::Datatype(cs)) => {
                                    let tid = TypeId { ctx: self.insts[id].key.clone(), name: v[i].0.clone() };
                                    match find_ctor_member(cs, tid, name) {
                                        Some(x) => {
                                            return Some(x);
                                        },
                                        None => {},
                                    }
                                },
                                _ => {},
                            }
                        },
                        _ => {},
                    }
                    i += 1;
                }
                None
            },
        }
    }

    fn find_ring(&self, tid: &TypeId) -> (r: Option<(usize, &'e Expr)>)
        ensures
            match (r, ring_at(self.model(), tid@)) {
                (Some(a), Some(b)) => a.0 == b.0 && a.1.model() == b.1,
                (None, None) => true,
                _ => false,
            },
    {
        match find_instance(self.insts, &tid.ctx) {
            Some(id) => match self.find_symbol_at(id, &tid.name) {
                Some(Entry::Type(_s, d)) => {
                    let ghost dm = opt_type_def(*d);
                    match d {
                        Some(TypeDef::Ringset(e)) => Some((id, e)),
                        _ => None,
                    }
                },
                _ => None,
            },
            None => None,
        }
    }

    /// The type that a type expression stands for, with its bounds.
    fn type_of(
        &self,
        at: usize,
        x: &Type,
        lo: &Vec<(String, SVal)>,
        busy: &Vec<(usize, String)>,
        k: usize
    ) -> (res: Result<CType, CheckError>)
        ensures
            match (
                res,
                v_type_of(
                    self.model(),
                    at as nat,
                    x.model(),
                    sv_fields(lo@),
                    busy_views(busy@),
                    evaluation(self.model(), k as nat)
                )
            ) {
                (Ok(v), Ok(m)) => v.model() == m,
                (Err(e), Err(f)) => e.model() == f,
                _ => false,
            },
        decreases k, 14nat,
    {
        let ghost w = self.model();
        let ghost g = evaluation(w, k as nat);
        proof {
            reveal(v_type_of);
        }
        let ghost xm = x.kind.model();
        match &x.kind {
            TypeKind::Name(n) => {
                return self.named_type(at, n, x.span, busy, k);
            },
            TypeKind::Subrange(a, b) => {
                let lo1 = match self.bound(at, a, lo, k) {
                    Ok(x) => x,
                    Err(e) => {
                        return Err(e);
                    },
                };
                let hi1 = match self.bound(at, b, lo, k) {
                    Ok(x) => x,
                    Err(e) => {
                        return Err(e);
                    },
                };
                return Ok(make_range(lo1, hi1));
            },
            TypeKind::Subtype(sp) => {
                let ghost spm = sp.model();
                return self.resolve_ctype(at, &sp.ty, lo, busy, k);
            },
            TypeKind::Array(a, b) => {
                let i1 = match self.resolve_ctype(at, a, lo, busy, k) {
                    Ok(x) => x,
                    Err(e) => {
                        return Err(e);
                    },
                };
                let e1 = match self.resolve_ctype(at, b, lo, busy, k) {
                    Ok(x) => x,
                    Err(e) => {
                        return Err(e);
                    },
                };
                return Ok(CType::Array(Box::new(i1), Box::new(e1)));
            },
            TypeKind::Function(a, b) => {
                let i1 = match self.resolve_ctype(at, a, lo, busy, k) {
                    Ok(x) => x,
                    Err(e) => {
                        return Err(e);
                    },
                };
                let e1 = match self.resolve_ctype(at, b, lo, busy, k) {
                    Ok(x) => x,
                    Err(e) => {
                        return Err(e);
                    },
                };
                return Ok(CType::Fun(Box::new(i1), Box::new(e1)));
            },
            TypeKind::Tuple(ts) => {
                let none = Vec::new();
                proof {
                    assert(ct_models(none@) =~= Seq::empty());
                }
                let v = match self.types_of(at, ts, lo, busy, none, k) {
                    Ok(x) => x,
                    Err(e) => {
                        return Err(e);
                    },
                };
                return Ok(CType::Tuple(v));
            },
            TypeKind::Record(fs) => {
                let none = Vec::new();
                proof {
                    assert(ct_fields(none@) =~= Seq::empty());
                }
                let v = match self.fields_of(at, fs, lo, busy, none, k) {
                    Ok(x) => x,
                    Err(e) => {
                        return Err(e);
                    },
                };
                return Ok(CType::Record(v));
            },
            TypeKind::State(_m) => {
                return Err(self.fault(at, x.span, own("State types are not supported here.")));
            },
        }

    }

    /// Several types.
    fn types_of(
        &self,
        at: usize,
        v: &Vec<Type>,
        lo: &Vec<(String, SVal)>,
        busy: &Vec<(usize, String)>,
        acc0: Vec<CType>,
        k: usize
    ) -> (res: Result<Vec<CType>, CheckError>)
        ensures
            match (
                res,
                v_types_of(
                    self.model(),
                    at as nat,
                    type_models(v@),
                    sv_fields(lo@),
                    busy_views(busy@),
                    ct_models(acc0@),
                    evaluation(self.model(), k as nat),
                    0
                )
            ) {
                (Ok(v), Ok(m)) => ct_models(v@) == m,
                (Err(e), Err(f)) => e.model() == f,
                _ => false,
            },
        decreases k, 3nat,
    {
        let ghost w = self.model();
        let ghost g = evaluation(w, k as nat);
        let mut acc = acc0;
        let mut i: usize = 0;
        while i < v.len()
            invariant
                i <= v@.len(),
                w == self.model(),
                g == evaluation(w, k as nat),
                v_types_of(
                    w,
                    at as nat,
                    type_models(v@),
                    sv_fields(lo@),
                    busy_views(busy@),
                    ct_models(acc@),
                    g,
                    i as int
                ) == v_types_of(w, at as nat, type_models(v@), sv_fields(lo@), busy_views(busy@), ct_models(acc0@), g, 0),
            decreases v.len() - i,
        {
            proof {
                reveal_with_fuel(v_types_of, 1);
                assert(type_models(v@)[i as int] == v@[i as int].model());
            }
            let t = match self.resolve_ctype(at, &v[i], lo, busy, k) {
                Ok(x) => x,
                Err(e) => {
                    return Err(e);
                },
            };
            let ghost tm = t.model();
            let ghost a0 = acc@;
            acc.push(t);
            proof { assert(ct_models(acc@) =~= ct_models(a0).push(tm)); }
            i += 1;
            continue;

        }
        proof {
            reveal_with_fuel(v_types_of, 1);
        }
        Ok(acc)
    }

    /// The fields of a record type, sorted by name.
    fn fields_of(
        &self,
        at: usize,
        v: &Vec<FieldDecl>,
        lo: &Vec<(String, SVal)>,
        busy: &Vec<(usize, String)>,
        acc0: Vec<(String, CType)>,
        k: usize
    ) -> (res: Result<Vec<(String, CType)>, CheckError>)
        ensures
            match (
                res,
                v_fields_of(
                    self.model(),
                    at as nat,
                    field_decl_models(v@),
                    sv_fields(lo@),
                    busy_views(busy@),
                    ct_fields(acc0@),
                    evaluation(self.model(), k as nat),
                    0
                )
            ) {
                (Ok(v), Ok(m)) => ct_fields(v@) == m,
                (Err(e), Err(f)) => e.model() == f,
                _ => false,
            },
        decreases k, 3nat,
    {
        let ghost w = self.model();
        let ghost g = evaluation(w, k as nat);
        let mut acc = acc0;
        let mut i: usize = 0;
        while i < v.len()
            invariant
                i <= v@.len(),
                w == self.model(),
                g == evaluation(w, k as nat),
                v_fields_of(
                    w,
                    at as nat,
                    field_decl_models(v@),
                    sv_fields(lo@),
                    busy_views(busy@),
                    ct_fields(acc@),
                    g,
                    i as int
                ) == v_fields_of(w, at as nat, field_decl_models(v@), sv_fields(lo@), busy_views(busy@), ct_fields(acc0@), g, 0),
            decreases v.len() - i,
        {
            proof {
                reveal_with_fuel(v_fields_of, 1);
                assert(field_decl_models(v@)[i as int] == v@[i as int].model());
            }
            let ghost fm = v@[i as int].name.model();
            let t = match self.resolve_ctype(at, &v[i].ty, lo, busy, k) {
                Ok(x) => x,
                Err(e) => {
                    return Err(e);
                },
            };
            acc = insert_ctype(acc, v[i].name.name.clone(), t);
            i += 1;
            continue;

        }
        proof {
            reveal_with_fuel(v_fields_of, 1);
        }
        Ok(acc)
    }

    /// A bound of a subrange, where there is one.
    fn bound(
        &self,
        at: usize,
        x: &Expr,
        lo: &Vec<(String, SVal)>,
        k: usize
    ) -> (res: Result<Option<Int>, CheckError>)
        ensures
            match (
                res,
                v_bound(self.model(), at as nat, x.model(), sv_fields(lo@), evaluation(self.model(), k as nat))
            ) {
                (Ok(v), Ok(m)) => opt_int(v) == m,
                (Err(e), Err(f)) => e.model() == f,
                _ => false,
            },
        decreases k, 3nat,
    {
        let ghost w = self.model();
        let ghost g = evaluation(w, k as nat);
        proof {
            reveal(v_bound);
        }
        let ghost xm = x.kind.model();
        if is_unbounded(&x.kind) {
            return Ok(None);
        }
        let v = match self.eval(at, x, lo, k) {
            Ok(x) => x,
            Err(e) => {
                return Err(e);
            },
        };
        match &v {
            SVal::Ground(Value::Num(q)) => {
                if q.is_integer() {
                    return Ok(Some(q.numer().clone()));
                }
                return Err(self.fault(at, x.span, own("Subrange bounds must evaluate to integer constants.")));
            },
            _ => {
                return Err(self.fault(at, x.span, own("Subrange bounds must evaluate to integer constants.")));
            },
        }

    }

    /// The type that a name stands for.
    fn named_type(
        &self,
        at: usize,
        n: &Name,
        span: Span,
        busy: &Vec<(usize, String)>,
        k: usize
    ) -> (res: Result<CType, CheckError>)
        ensures
            match (
                res,
                v_named_type(
                    self.model(),
                    at as nat,
                    n.model(),
                    span,
                    busy_views(busy@),
                    evaluation(self.model(), k as nat)
                )
            ) {
                (Ok(v), Ok(m)) => v.model() == m,
                (Err(e), Err(f)) => e.model() == f,
                _ => false,
            },
        decreases k, 10nat,
    {
        let ghost w = self.model();
        let ghost g = evaluation(w, k as nat);
        proof {
            reveal(v_named_type);
        }
        let ghost nm = n.id.model();
        match find_plain_type(n) {
            Some(t) => {
                return Ok(t);
            },
            None => {
                let found = match self.find_entry(at, n) {
                    Some(x) => x,
                    None => {
                        return Err(self.fault(at, span, text3("Unknown variable \"", n.id.name.as_str(), "\".")));
                    },
                };
                match found.1 {
                    Entry::Type(_s, def) => {
                        return self.defined_type(at, found.0, &n.id.name, def, span, busy, k);
                    },
                    _ => {
                        return Err(self.fault(at, span, text3("Unknown type \"", n.id.name.as_str(), "\".")));
                    },
                }
            },
        }

    }

    /// The type that a definition gives.
    fn defined_type(
        &self,
        at: usize,
        id: usize,
        name: &String,
        def: &Option<TypeDef>,
        span: Span,
        busy: &Vec<(usize, String)>,
        k: usize
    ) -> (res: Result<CType, CheckError>)
        ensures
            match (
                res,
                v_defined_type(
                    self.model(),
                    at as nat,
                    id as nat,
                    name@,
                    opt_type_def(*def),
                    span,
                    busy_views(busy@),
                    evaluation(self.model(), k as nat)
                )
            ) {
                (Ok(v), Ok(m)) => v.model() == m,
                (Err(e), Err(f)) => e.model() == f,
                _ => false,
            },
        decreases k, 8nat,
    {
        let ghost w = self.model();
        let ghost g = evaluation(w, k as nat);
        proof {
            reveal(v_defined_type);
        }
        let none: Vec<(String, SVal)> = Vec::new();
        proof { assert(sv_fields(none@) =~= Seq::empty()); }
        match def {
            None => {
                match self.find_given(id, name) {
                    Some(Binding::Type(_s, t)) => {
                        return self.resolve_ctype(self.find_from(id), t, &none, busy, k);
                    },
                    _ => {
                        return Ok(CType::Uninterp(self.tid_of(id, name)));
                    },
                }
            },
            Some(TypeDef::Type(t)) => {
                return self.resolve_ctype(id, t, &none, busy, k);
            },
            Some(TypeDef::Scalar(ids)) => {
                return Ok(CType::Scalar(self.tid_of(id, name), list_names(ids)));
            },
            Some(TypeDef::Scalarset(e)) => {
                let n = match self.set_size(at, id, e, span, k) {
                    Ok(x) => x,
                    Err(e) => {
                        return Err(e);
                    },
                };
                return Ok(CType::Scalar(self.tid_of(id, name), list_elements(name, n)));
            },
            Some(TypeDef::Ringset(e)) => {
                let n = match self.set_size(at, id, e, span, k) {
                    Ok(x) => x,
                    Err(e) => {
                        return Err(e);
                    },
                };
                return Ok(CType::Scalar(self.tid_of(id, name), list_elements(name, n)));
            },
            Some(TypeDef::Datatype(cs)) => {
                if is_busy(busy, id, name) {
                    return Ok(CType::Uninterp(self.tid_of(id, name)));
                }
                let more = add_busy(busy, id, name);
                let nothing = Vec::new();
                proof {
                    assert(ctor_models(nothing@) =~= Seq::empty());
                }
                let v = match self.constructors(id, cs, &more, nothing, k) {
                    Ok(x) => x,
                    Err(e) => {
                        return Err(e);
                    },
                };
                return Ok(CType::Data(self.tid_of(id, name), v));
            },
        }

    }

    /// The size of a type given by its size.
    fn set_size(&self, at: usize, id: usize, e: &Expr, span: Span, k: usize) -> (res: Result<usize, CheckError>)
        ensures
            match (
                res,
                v_set_size(self.model(), at as nat, id as nat, e.model(), span, evaluation(self.model(), k as nat))
            ) {
                (Ok(v), Ok(m)) => v == m,
                (Err(e), Err(f)) => e.model() == f,
                _ => false,
            },
        decreases k, 3nat,
    {
        let ghost w = self.model();
        let ghost g = evaluation(w, k as nat);
        proof {
            reveal(v_set_size);
        }
        let none: Vec<(String, SVal)> = Vec::new();
        proof { assert(sv_fields(none@) =~= Seq::empty()); }
        let v = match self.eval(id, e, &none, k) {
            Ok(x) => x,
            Err(e) => {
                return Err(e);
            },
        };
        match find_size(&v) {
            Some(n) => {
                return Ok(n);
            },
            None => {
                return Err(self.fault(at, span, own("Scalarset size must be a natural constant.")));
            },
        }

    }

    /// The constructors of a datatype, with the types of their arguments.
    fn constructors(
        &self,
        id: usize,
        v: &Vec<Constructor>,
        busy: &Vec<(usize, String)>,
        acc0: Vec<(String, Vec<CType>)>,
        k: usize
    ) -> (res: Result<Vec<(String, Vec<CType>)>, CheckError>)
        ensures
            match (
                res,
                v_constructors(
                    self.model(),
                    id as nat,
                    constructor_models(v@),
                    busy_views(busy@),
                    ctor_models(acc0@),
                    evaluation(self.model(), k as nat),
                    0
                )
            ) {
                (Ok(v), Ok(m)) => ctor_models(v@) == m,
                (Err(e), Err(f)) => e.model() == f,
                _ => false,
            },
        decreases k, 6nat,
    {
        let ghost w = self.model();
        let ghost g = evaluation(w, k as nat);
        let mut acc = acc0;
        let mut i: usize = 0;
        while i < v.len()
            invariant
                i <= v@.len(),
                w == self.model(),
                g == evaluation(w, k as nat),
                v_constructors(
                    w,
                    id as nat,
                    constructor_models(v@),
                    busy_views(busy@),
                    ctor_models(acc@),
                    g,
                    i as int
                ) == v_constructors(w, id as nat, constructor_models(v@), busy_views(busy@), ctor_models(acc0@), g, 0),
            decreases v.len() - i,
        {
            proof {
                reveal_with_fuel(v_constructors, 1);
                assert(constructor_models(v@)[i as int] == v@[i as int].model());
            }
            let ghost nm = v@[i as int].name.model();
            let nothing = Vec::new();
            proof {
                assert(ct_models(nothing@) =~= Seq::empty());
            }
            let ts = match self.arguments(id, &v[i].accessors, busy, nothing, k) {
                Ok(x) => x,
                Err(e) => {
                    return Err(e);
                },
            };
            let ghost tm = (v@[i as int].name.name@, ct_models(ts@));
            let ghost a0 = acc@;
            acc.push((v[i].name.name.clone(), ts));
            proof { assert(ctor_models(acc@) =~= ctor_models(a0).push(tm)); }
            i += 1;
            continue;

        }
        proof {
            reveal_with_fuel(v_constructors, 1);
        }
        Ok(acc)
    }

    /// The types of the arguments of a constructor.
    fn arguments(
        &self,
        id: usize,
        v: &Vec<VarDecl>,
        busy: &Vec<(usize, String)>,
        acc0: Vec<CType>,
        k: usize
    ) -> (res: Result<Vec<CType>, CheckError>)
        ensures
            match (
                res,
                v_arguments(
                    self.model(),
                    id as nat,
                    var_decl_models(v@),
                    busy_views(busy@),
                    ct_models(acc0@),
                    evaluation(self.model(), k as nat),
                    0
                )
            ) {
                (Ok(v), Ok(m)) => ct_models(v@) == m,
                (Err(e), Err(f)) => e.model() == f,
                _ => false,
            },
        decreases k, 5nat,
    {
        let ghost w = self.model();
        let ghost g = evaluation(w, k as nat);
        let mut acc = acc0;
        let mut i: usize = 0;
        while i < v.len()
            invariant
                i <= v@.len(),
                w == self.model(),
                g == evaluation(w, k as nat),
                v_arguments(
                    w,
                    id as nat,
                    var_decl_models(v@),
                    busy_views(busy@),
                    ct_models(acc@),
                    g,
                    i as int
                ) == v_arguments(w, id as nat, var_decl_models(v@), busy_views(busy@), ct_models(acc0@), g, 0),
            decreases v.len() - i,
        {
            proof {
                reveal_with_fuel(v_arguments, 1);
                assert(var_decl_models(v@)[i as int] == v@[i as int].model());
            }
            let none: Vec<(String, SVal)> = Vec::new();
            proof { assert(sv_fields(none@) =~= Seq::empty()); }
            let ghost dm = v@[i as int].model();
            let t = match self.resolve_ctype(id, &v[i].ty, &none, busy, k) {
                Ok(x) => x,
                Err(e) => {
                    return Err(e);
                },
            };
            let count: usize = v[i].names.len();
            acc = append_ctypes(acc, count, &t);
            i += 1;
            continue;

        }
        proof {
            reveal_with_fuel(v_arguments, 1);
        }
        Ok(acc)
    }

    /// The value of an expression made of several.
    fn eval_rest(
        &self,
        at: usize,
        x: &Expr,
        lo: &Vec<(String, SVal)>,
        k: usize
    ) -> (res: Result<SVal, CheckError>)
        ensures
            match (
                res,
                v_eval_rest(self.model(), at as nat, x.model(), sv_fields(lo@), evaluation(self.model(), k as nat))
            ) {
                (Ok(v), Ok(m)) => v.model() == m,
                (Err(e), Err(f)) => e.model() == f,
                _ => false,
            },
        decreases k, 28nat,
    {
        let ghost w = self.model();
        let ghost g = evaluation(w, k as nat);
        proof {
            reveal(v_eval_rest);
        }
        let ghost xm = x.kind.model();
        match &x.kind {
            ExprKind::SetList(es) => {
                let none = Vec::new();
                proof {
                    assert(sv_models(none@) =~= Seq::empty());
                }
                let vs = match self.exprs(at, es, lo, none, k) {
                    Ok(x) => x,
                    Err(e) => {
                        return Err(e);
                    },
                };
                return Ok(SVal::Among(SetRepr::List(vs)));
            },
            ExprKind::ArrayLit(d, b) => {
                return self.array(at, d, b, x.span, lo, k);
            },
            ExprKind::RecordLit(es) => {
                let none = Vec::new();
                proof {
                    assert(sv_fields(none@) =~= Seq::empty());
                }
                let fs = match self.entries(at, es, lo, none, k) {
                    Ok(x) => x,
                    Err(e) => {
                        return Err(e);
                    },
                };
                return Ok(SVal::Record(fs));
            },
            ExprKind::TupleLit(es) => {
                let none = Vec::new();
                proof {
                    assert(sv_models(none@) =~= Seq::empty());
                }
                let vs = match self.exprs(at, es, lo, none, k) {
                    Ok(x) => x,
                    Err(e) => {
                        return Err(e);
                    },
                };
                return Ok(SVal::Tuple(vs));
            },
            ExprKind::Conditional { cond, then_, els, is_elsif } => {
                let vc = match self.eval(at, cond, lo, k) {
                    Ok(x) => x,
                    Err(e) => {
                        return Err(e);
                    },
                };
                return self.conditional(at, vc, then_, els, x.span, lo, k);
            },
            ExprKind::ModInit(_m) => {
                return Err(self.fault(at, x.span, own("INIT_PRED/TRANS_PRED are not supported.")));
            },
            ExprKind::ModTrans(_m) => {
                return Err(self.fault(at, x.span, own("INIT_PRED/TRANS_PRED are not supported.")));
            },
            _ => {
                return Err(self.fault(at, x.span, own("Invalid expression.")));
            },
        }

    }

    /// The value of an expression that binds variables.
    fn eval_binder(
        &self,
        at: usize,
        x: &Expr,
        lo: &Vec<(String, SVal)>,
        k: usize
    ) -> (res: Result<SVal, CheckError>)
        ensures
            match (
                res,
                v_eval_binder(self.model(), at as nat, x.model(), sv_fields(lo@), evaluation(self.model(), k as nat))
            ) {
                (Ok(v), Ok(m)) => v.model() == m,
                (Err(e), Err(f)) => e.model() == f,
                _ => false,
            },
        decreases k, 29nat,
    {
        let ghost w = self.model();
        let ghost g = evaluation(w, k as nat);
        proof {
            reveal(v_eval_binder);
        }
        let ghost xm = x.kind.model();
        match &x.kind {
            ExprKind::Lambda(ds, b) => {
                return Ok(SVal::Fun(Closure::Lambda(list_all_names(ds), b.dup(), at, copy_locals(lo))));
            },
            ExprKind::Quantified(q, ds, b) => {
                return self.quantified(at, *q, ds, b, x.span, lo, k);
            },
            ExprKind::Let(ds, b) => {
                let same = copy_locals(lo);
                let inner = match self.lets(at, ds, lo, same, k) {
                    Ok(x) => x,
                    Err(e) => {
                        return Err(e);
                    },
                };
                return self.eval(at, b, &inner, k);
            },
            ExprKind::SetPred(sp) => {
                let ghost spm = sp.model();
                let ghost svm = sp.var.model();
                return Ok(SVal::Among(SetRepr::Pred(at, copy_locals(lo), sp.var.name.clone(), sp.pred.dup())));
            },
            _ => {
                return self.eval_rest(at, x, lo, k);
            },
        }

    }

    /// The value of a part, or of a changed value.
    fn eval_part(
        &self,
        at: usize,
        x: &Expr,
        lo: &Vec<(String, SVal)>,
        k: usize
    ) -> (res: Result<SVal, CheckError>)
        ensures
            match (
                res,
                v_eval_part(self.model(), at as nat, x.model(), sv_fields(lo@), evaluation(self.model(), k as nat))
            ) {
                (Ok(v), Ok(m)) => v.model() == m,
                (Err(e), Err(f)) => e.model() == f,
                _ => false,
            },
        decreases k, 30nat,
    {
        let ghost w = self.model();
        let ghost g = evaluation(w, k as nat);
        proof {
            reveal(v_eval_part);
        }
        let ghost xm = x.kind.model();
        match &x.kind {
            ExprKind::RecordSelect(r, f) => {
                let vr = match self.eval(at, r, lo, k) {
                    Ok(x) => x,
                    Err(e) => {
                        return Err(e);
                    },
                };
                match find_record_part(&vr, &f.name) {
                    Some(v) => {
                        return Ok(v);
                    },
                    None => {
                        return Err(self.fault(at, f.span, text3("Unknown record field \"", f.name.as_str(), "\".")));
                    },
                }
            },
            ExprKind::TupleSelect(t, j) => {
                let vt = match self.eval(at, t, lo, k) {
                    Ok(x) => x,
                    Err(e) => {
                        return Err(e);
                    },
                };
                match find_tuple_part(&vt, *j) {
                    Some(v) => {
                        return Ok(v);
                    },
                    None => {
                        return Err(self.fault(at, x.span, own("Invalid tuple selection.")));
                    },
                }
            },
            ExprKind::Update { target, accesses, value } => {
                let vt = match self.eval(at, target, lo, k) {
                    Ok(x) => x,
                    Err(e) => {
                        return Err(e);
                    },
                };
                let vv = match self.eval(at, value, lo, k) {
                    Ok(x) => x,
                    Err(e) => {
                        return Err(e);
                    },
                };
                return self.update(at, &vt, accesses, 0, &vv, x.span, lo, k);
            },
            _ => {
                return self.eval_binder(at, x, lo, k);
            },
        }

    }

    /// The value of an operation or of an application.
    fn eval_use(
        &self,
        at: usize,
        x: &Expr,
        lo: &Vec<(String, SVal)>,
        k: usize
    ) -> (res: Result<SVal, CheckError>)
        ensures
            match (
                res,
                v_eval_use(self.model(), at as nat, x.model(), sv_fields(lo@), evaluation(self.model(), k as nat))
            ) {
                (Ok(v), Ok(m)) => v.model() == m,
                (Err(e), Err(f)) => e.model() == f,
                _ => false,
            },
        decreases k, 31nat,
    {
        let ghost w = self.model();
        let ghost g = evaluation(w, k as nat);
        proof {
            reveal(v_eval_use);
        }
        let ghost xm = x.kind.model();
        match &x.kind {
            ExprKind::Binary(op, a, b) => {
                let va = match self.eval(at, a, lo, k) {
                    Ok(x) => x,
                    Err(e) => {
                        return Err(e);
                    },
                };
                let vb = match self.eval(at, b, lo, k) {
                    Ok(x) => x,
                    Err(e) => {
                        return Err(e);
                    },
                };
                return self.binary(at, *op, va, vb, x.span, k);
            },
            ExprKind::Unary(op, a) => {
                let va = match self.eval(at, a, lo, k) {
                    Ok(x) => x,
                    Err(e) => {
                        return Err(e);
                    },
                };
                return self.unary(at, *op, va, x.span, k);
            },
            ExprKind::App(f, args) => {
                let vf = match self.eval(at, f, lo, k) {
                    Ok(x) => x,
                    Err(e) => {
                        return Err(e);
                    },
                };
                let none = Vec::new();
                proof {
                    assert(sv_models(none@) =~= Seq::empty());
                }
                let vs = match self.exprs(at, args, lo, none, k) {
                    Ok(x) => x,
                    Err(e) => {
                        return Err(e);
                    },
                };
                return self.apply(at, &vf, &vs, x.span, k);
            },
            ExprKind::ArraySelect(a, j) => {
                let va = match self.eval(at, a, lo, k) {
                    Ok(x) => x,
                    Err(e) => {
                        return Err(e);
                    },
                };
                let vj = match self.eval(at, j, lo, k) {
                    Ok(x) => x,
                    Err(e) => {
                        return Err(e);
                    },
                };
                return self.select(at, &va, vj, x.span, k);
            },
            _ => {
                return self.eval_part(at, x, lo, k);
            },
        }

    }

    /// The symbolic value of an expression.
    fn eval_inner(
        &self,
        at: usize,
        x: &Expr,
        lo: &Vec<(String, SVal)>,
        k: usize
    ) -> (res: Result<SVal, CheckError>)
        ensures
            match (
                res,
                v_eval_inner(self.model(), at as nat, x.model(), sv_fields(lo@), evaluation(self.model(), k as nat))
            ) {
                (Ok(v), Ok(m)) => v.model() == m,
                (Err(e), Err(f)) => e.model() == f,
                _ => false,
            },
        decreases k, 32nat,
    {
        let ghost w = self.model();
        let ghost g = evaluation(w, k as nat);
        proof {
            reveal(v_eval_inner);
        }
        let ghost xm = x.kind.model();
        match &x.kind {
            ExprKind::Name(n) => {
                return self.name(at, n, x.span, lo, k);
            },
            ExprKind::Next(id) => {
                match find_local(lo, &make_next(&id.name)) {
                    Some(v) => {
                        return Ok(v);
                    },
                    None => {
                        return Err(self.fault(at, x.span, text3("Unknown variable \"", id.name.as_str(), "'\".")));
                    },
                }
            },
            ExprKind::Numeral(s) => {
                match Int::parse(s.as_str()) {
                    Some(n) => {
                        return Ok(SVal::Ground(Value::Num(Rat::from_integer(n))));
                    },
                    None => {
                        return Err(self.fault(at, x.span, own("Invalid numeral.")));
                    },
                }
            },
            ExprKind::Float { numer, denom } => {
                return self.fraction(at, numer, denom, x.span, k);
            },
            ExprKind::Str(_s) => {
                return Err(self.fault(at, x.span, own("String literals are not supported here.")));
            },
            ExprKind::Unbounded => {
                return Err(self.fault(at, x.span, own("Invalid use of `_'.")));
            },
            _ => {
                return self.eval_use(at, x, lo, k);
            },
        }

    }

    /// The value of a fraction.
    fn fraction(
        &self,
        at: usize,
        numer: &String,
        denom: &String,
        span: Span,
        k: usize
    ) -> (res: Result<SVal, CheckError>)
        ensures
            match (
                res,
                v_fraction(self.model(), at as nat, numer@, denom@, span, evaluation(self.model(), k as nat))
            ) {
                (Ok(v), Ok(m)) => v.model() == m,
                (Err(e), Err(f)) => e.model() == f,
                _ => false,
            },
        decreases k, 3nat,
    {
        let ghost w = self.model();
        let ghost g = evaluation(w, k as nat);
        proof {
            reveal(v_fraction);
        }
        match (Int::parse(numer.as_str()), Int::parse(denom.as_str())) {
            (Some(n), Some(d)) => {
                if d.is_zero() {
                    return Err(self.fault(at, span, own("Invalid numeral.")));
                }
                return Ok(SVal::Ground(Value::Num(Rat::new(&n, &d))));
            },
            _ => {
                return Err(self.fault(at, span, own("Invalid numeral.")));
            },
        }

    }

    /// The values of several expressions.
    pub(crate) fn exprs(
        &self,
        at: usize,
        v: &Vec<Expr>,
        lo: &Vec<(String, SVal)>,
        acc0: Vec<SVal>,
        k: usize
    ) -> (res: Result<Vec<SVal>, CheckError>)
        ensures
            match (
                res,
                v_exprs(
                    self.model(),
                    at as nat,
                    expr_models(v@),
                    sv_fields(lo@),
                    sv_models(acc0@),
                    evaluation(self.model(), k as nat),
                    0
                )
            ) {
                (Ok(v), Ok(m)) => sv_models(v@) == m,
                (Err(e), Err(f)) => e.model() == f,
                _ => false,
            },
        decreases k, 3nat,
    {
        let ghost w = self.model();
        let ghost g = evaluation(w, k as nat);
        let mut acc = acc0;
        let mut i: usize = 0;
        while i < v.len()
            invariant
                i <= v@.len(),
                w == self.model(),
                g == evaluation(w, k as nat),
                v_exprs(
                    w,
                    at as nat,
                    expr_models(v@),
                    sv_fields(lo@),
                    sv_models(acc@),
                    g,
                    i as int
                ) == v_exprs(w, at as nat, expr_models(v@), sv_fields(lo@), sv_models(acc0@), g, 0),
            decreases v.len() - i,
        {
            proof {
                reveal_with_fuel(v_exprs, 1);
                assert(expr_models(v@)[i as int] == v@[i as int].model());
            }
            let t = match self.eval(at, &v[i], lo, k) {
                Ok(x) => x,
                Err(e) => {
                    return Err(e);
                },
            };
            let ghost tm = t.model();
            let ghost a0 = acc@;
            acc.push(t);
            proof { assert(sv_models(acc@) =~= sv_models(a0).push(tm)); }
            i += 1;
            continue;

        }
        proof {
            reveal_with_fuel(v_exprs, 1);
        }
        Ok(acc)
    }

    /// The fields of a record, sorted by name.
    fn entries(
        &self,
        at: usize,
        v: &Vec<(Ident, Expr)>,
        lo: &Vec<(String, SVal)>,
        acc0: Vec<(String, SVal)>,
        k: usize
    ) -> (res: Result<Vec<(String, SVal)>, CheckError>)
        ensures
            match (
                res,
                v_entries(
                    self.model(),
                    at as nat,
                    ident_expr_pairs(v@),
                    sv_fields(lo@),
                    sv_fields(acc0@),
                    evaluation(self.model(), k as nat),
                    0
                )
            ) {
                (Ok(v), Ok(m)) => sv_fields(v@) == m,
                (Err(e), Err(f)) => e.model() == f,
                _ => false,
            },
        decreases k, 3nat,
    {
        let ghost w = self.model();
        let ghost g = evaluation(w, k as nat);
        let mut acc = acc0;
        let mut i: usize = 0;
        while i < v.len()
            invariant
                i <= v@.len(),
                w == self.model(),
                g == evaluation(w, k as nat),
                v_entries(
                    w,
                    at as nat,
                    ident_expr_pairs(v@),
                    sv_fields(lo@),
                    sv_fields(acc@),
                    g,
                    i as int
                ) == v_entries(w, at as nat, ident_expr_pairs(v@), sv_fields(lo@), sv_fields(acc0@), g, 0),
            decreases v.len() - i,
        {
            proof {
                reveal_with_fuel(v_entries, 1);
                assert(ident_expr_pairs(v@)[i as int] == (v@[i as int].0.model(), v@[i as int].1.model()));
            }
            let ghost nm = v@[i as int].0.model();
            let t = match self.eval(at, &v[i].1, lo, k) {
                Ok(x) => x,
                Err(e) => {
                    return Err(e);
                },
            };
            acc = insert_sval(acc, v[i].0.name.clone(), t);
            i += 1;
            continue;

        }
        proof {
            reveal_with_fuel(v_entries, 1);
        }
        Ok(acc)
    }

    /// The variables with local declarations; none of them is in scope of another.
    fn lets(
        &self,
        at: usize,
        v: &Vec<LetDecl>,
        lo: &Vec<(String, SVal)>,
        acc0: Vec<(String, SVal)>,
        k: usize
    ) -> (res: Result<Vec<(String, SVal)>, CheckError>)
        ensures
            match (
                res,
                v_lets(
                    self.model(),
                    at as nat,
                    let_decl_models(v@),
                    sv_fields(lo@),
                    sv_fields(acc0@),
                    evaluation(self.model(), k as nat),
                    0
                )
            ) {
                (Ok(v), Ok(m)) => sv_fields(v@) == m,
                (Err(e), Err(f)) => e.model() == f,
                _ => false,
            },
        decreases k, 3nat,
    {
        let ghost w = self.model();
        let ghost g = evaluation(w, k as nat);
        let mut acc = acc0;
        let mut i: usize = 0;
        while i < v.len()
            invariant
                i <= v@.len(),
                w == self.model(),
                g == evaluation(w, k as nat),
                v_lets(
                    w,
                    at as nat,
                    let_decl_models(v@),
                    sv_fields(lo@),
                    sv_fields(acc@),
                    g,
                    i as int
                ) == v_lets(w, at as nat, let_decl_models(v@), sv_fields(lo@), sv_fields(acc0@), g, 0),
            decreases v.len() - i,
        {
            proof {
                reveal_with_fuel(v_lets, 1);
                assert(let_decl_models(v@)[i as int] == v@[i as int].model());
            }
            let ghost dm = v@[i as int].model();
            let ghost nm = v@[i as int].name.model();
            let t = match self.eval(at, &v[i].value, lo, k) {
                Ok(x) => x,
                Err(e) => {
                    return Err(e);
                },
            };
            acc = add_local(acc, v[i].name.name.clone(), t);
            i += 1;
            continue;

        }
        proof {
            reveal_with_fuel(v_lets, 1);
        }
        Ok(acc)
    }

    /// The value of a name.
    fn name(
        &self,
        at: usize,
        n: &Name,
        span: Span,
        lo: &Vec<(String, SVal)>,
        k: usize
    ) -> (res: Result<SVal, CheckError>)
        ensures
            match (
                res,
                v_name(self.model(), at as nat, n.model(), span, sv_fields(lo@), evaluation(self.model(), k as nat))
            ) {
                (Ok(v), Ok(m)) => v.model() == m,
                (Err(e), Err(f)) => e.model() == f,
                _ => false,
            },
        decreases k, 8nat,
    {
        let ghost w = self.model();
        let ghost g = evaluation(w, k as nat);
        proof {
            reveal(v_name);
        }
        let ghost nm = n.id.model();
        match find_plain_value(n, lo) {
            Some(v) => {
                return Ok(v);
            },
            None => {
                let found = match self.find_entry(at, n) {
                    Some(x) => x,
                    None => {
                        return Err(self.fault(at, span, text3("Unknown variable \"", n.id.name.as_str(), "\".")));
                    },
                };
                match found.1 {
                    Entry::Const(sem, value) => {
                        return self.constant(at, found.0, &n.id.name, sem, value, span, k);
                    },
                    Entry::Type(_s, _d) => {
                        return Err(self.fault(at, span, text3("Type \"", n.id.name.as_str(), "\" used as an expression.")));
                    },
                    _ => {
                        return Err(self.fault(at, span, text3("Invalid use of \"", n.id.name.as_str(), "\" in an expression.")));
                    },
                }
            },
        }

    }

    /// The value of a declared constant.
    fn constant(
        &self,
        at: usize,
        id: usize,
        name: &String,
        sem: &SemType,
        value: &Option<Expr>,
        span: Span,
        k: usize
    ) -> (res: Result<SVal, CheckError>)
        ensures
            match (
                res,
                v_constant(
                    self.model(),
                    at as nat,
                    id as nat,
                    name@,
                    sem.model(),
                    opt_expr(*value),
                    span,
                    evaluation(self.model(), k as nat)
                )
            ) {
                (Ok(v), Ok(m)) => v.model() == m,
                (Err(e), Err(f)) => e.model() == f,
                _ => false,
            },
        decreases k, 5nat,
    {
        let ghost w = self.model();
        let ghost g = evaluation(w, k as nat);
        proof {
            reveal(v_constant);
        }
        let none: Vec<(String, SVal)> = Vec::new();
        proof { assert(sv_fields(none@) =~= Seq::empty()); }
        match self.find_given(id, name) {
            Some(Binding::Expr(e)) => {
                return self.eval(self.find_from(id), e, &none, k);
            },
            _ => {
                match value {
                    Some(e) => {
                        return self.eval(id, e, &none, k);
                    },
                    None => {
                        match self.find_element(id, name, sem) {
                            Some(v) => {
                                return Ok(v);
                            },
                            None => {
                                return Err(self.fault(at, span, text3("Uninterpreted constant \"", name.as_str(), "\" cannot be evaluated.")));
                            },
                        }
                    },
                }
            },
        }

    }

    /// The value of a binary operation.
    fn binary(
        &self,
        at: usize,
        op: BinOp,
        a: SVal,
        b: SVal,
        span: Span,
        k: usize
    ) -> (res: Result<SVal, CheckError>)
        ensures
            match (
                res,
                v_binary(self.model(), at as nat, op, a.model(), b.model(), span, evaluation(self.model(), k as nat))
            ) {
                (Ok(v), Ok(m)) => v.model() == m,
                (Err(e), Err(f)) => e.model() == f,
                _ => false,
            },
        decreases k, 3nat,
    {
        let ghost w = self.model();
        let ghost g = evaluation(w, k as nat);
        proof {
            reveal(v_binary);
        }
        match eval_binary(op, a, b) {
            Ok(v) => {
                return Ok(v);
            },
            Err(m) => {
                return Err(self.fault(at, span, m));
            },
        }

    }

    /// The value of a unary operation.
    fn unary(&self, at: usize, op: UnOp, a: SVal, span: Span, k: usize) -> (res: Result<SVal, CheckError>)
        ensures
            match (res, v_unary(self.model(), at as nat, op, a.model(), span, evaluation(self.model(), k as nat))) {
                (Ok(v), Ok(m)) => v.model() == m,
                (Err(e), Err(f)) => e.model() == f,
                _ => false,
            },
        decreases k, 3nat,
    {
        let ghost w = self.model();
        let ghost g = evaluation(w, k as nat);
        proof {
            reveal(v_unary);
        }
        match eval_unary(op, a) {
            Ok(v) => {
                return Ok(v);
            },
            Err(m) => {
                return Err(self.fault(at, span, m));
            },
        }

    }

    /// The value of a conditional.
    fn conditional(
        &self,
        at: usize,
        c: SVal,
        t: &Expr,
        e: &Expr,
        span: Span,
        lo: &Vec<(String, SVal)>,
        k: usize
    ) -> (res: Result<SVal, CheckError>)
        ensures
            match (
                res,
                v_conditional(
                    self.model(),
                    at as nat,
                    c.model(),
                    t.model(),
                    e.model(),
                    span,
                    sv_fields(lo@),
                    evaluation(self.model(), k as nat)
                )
            ) {
                (Ok(v), Ok(m)) => v.model() == m,
                (Err(e), Err(f)) => e.model() == f,
                _ => false,
            },
        decreases k, 3nat,
    {
        let ghost w = self.model();
        let ghost g = evaluation(w, k as nat);
        proof {
            reveal(v_conditional);
        }
        match &c {
            SVal::Ground(Value::Bool(b)) => {
                if *b {
                    return self.eval(at, t, lo, k);
                }
                return self.eval(at, e, lo, k);
            },
            _ => {
                let vt = match self.eval(at, t, lo, k) {
                    Ok(x) => x,
                    Err(e) => {
                        return Err(e);
                    },
                };
                let ve = match self.eval(at, e, lo, k) {
                    Ok(x) => x,
                    Err(e) => {
                        return Err(e);
                    },
                };
                match choose_value(c, vt, ve) {
                    Ok(v) => {
                        return Ok(v);
                    },
                    Err(m) => {
                        return Err(self.fault(at, span, m));
                    },
                }
            },
        }

    }

    /// The value of a quantified expression.
    fn quantified(
        &self,
        at: usize,
        q: Quantifier,
        ds: &Vec<VarDecl>,
        b: &Expr,
        span: Span,
        lo: &Vec<(String, SVal)>,
        k: usize
    ) -> (res: Result<SVal, CheckError>)
        ensures
            match (
                res,
                v_quantified(
                    self.model(),
                    at as nat,
                    q,
                    var_decl_models(ds@),
                    b.model(),
                    span,
                    sv_fields(lo@),
                    evaluation(self.model(), k as nat)
                )
            ) {
                (Ok(v), Ok(m)) => v.model() == m,
                (Err(e), Err(f)) => e.model() == f,
                _ => false,
            },
        decreases k, 7nat,
    {
        let ghost w = self.model();
        let ghost g = evaluation(w, k as nat);
        proof {
            reveal(v_quantified);
        }
        let names = list_all_names(ds);
        let rows = match self.assignments(at, ds, span, lo, k) {
            Ok(x) => x,
            Err(e) => {
                return Err(e);
            },
        };
        let none = Vec::new();
        proof {
            assert(sv_models(none@) =~= Seq::empty());
        }
        let vs = match self.instances(at, &rows, &names, b, lo, none, k) {
            Ok(x) => x,
            Err(e) => {
                return Err(e);
            },
        };
        match combine(q, &vs) {
            Ok(v) => {
                return Ok(v);
            },
            Err(m) => {
                return Err(self.fault(at, span, m));
            },
        }

    }

    /// The values of an expression for each row of values of variables.
    fn instances(
        &self,
        at: usize,
        v: &Vec<Vec<Value>>,
        names: &Vec<String>,
        b: &Expr,
        lo: &Vec<(String, SVal)>,
        acc0: Vec<SVal>,
        k: usize
    ) -> (res: Result<Vec<SVal>, CheckError>)
        ensures
            match (
                res,
                v_instances(
                    self.model(),
                    at as nat,
                    row_models(v@),
                    views(names@),
                    b.model(),
                    sv_fields(lo@),
                    sv_models(acc0@),
                    evaluation(self.model(), k as nat),
                    0
                )
            ) {
                (Ok(v), Ok(m)) => sv_models(v@) == m,
                (Err(e), Err(f)) => e.model() == f,
                _ => false,
            },
        decreases k, 3nat,
    {
        let ghost w = self.model();
        let ghost g = evaluation(w, k as nat);
        let mut acc = acc0;
        let mut i: usize = 0;
        while i < v.len()
            invariant
                i <= v@.len(),
                w == self.model(),
                g == evaluation(w, k as nat),
                v_instances(
                    w,
                    at as nat,
                    row_models(v@),
                    views(names@),
                    b.model(),
                    sv_fields(lo@),
                    sv_models(acc@),
                    g,
                    i as int
                ) == v_instances(w, at as nat, row_models(v@), views(names@), b.model(), sv_fields(lo@), sv_models(acc0@), g, 0),
            decreases v.len() - i,
        {
            proof {
                reveal_with_fuel(v_instances, 1);
                assert(row_models(v@)[i as int] == models(v@[i as int]@));
            }
            let inner = add_row(lo, names, &v[i]);
            let t = match self.eval(at, b, &inner, k) {
                Ok(x) => x,
                Err(e) => {
                    return Err(e);
                },
            };
            let ghost tm = t.model();
            let ghost a0 = acc@;
            acc.push(t);
            proof { assert(sv_models(acc@) =~= sv_models(a0).push(tm)); }
            i += 1;
            continue;

        }
        proof {
            reveal_with_fuel(v_instances, 1);
        }
        Ok(acc)
    }

    /// The rows of values of declared variables.
    pub(crate) fn assignments(
        &self,
        at: usize,
        ds: &Vec<VarDecl>,
        span: Span,
        lo: &Vec<(String, SVal)>,
        k: usize
    ) -> (res: Result<Vec<Vec<Value>>, CheckError>)
        ensures
            match (
                res,
                v_assignments(
                    self.model(),
                    at as nat,
                    var_decl_models(ds@),
                    span,
                    sv_fields(lo@),
                    evaluation(self.model(), k as nat)
                )
            ) {
                (Ok(v), Ok(m)) => row_models(v@) == m,
                (Err(e), Err(f)) => e.model() == f,
                _ => false,
            },
        decreases k, 5nat,
    {
        let ghost w = self.model();
        let ghost g = evaluation(w, k as nat);
        proof {
            reveal(v_assignments);
        }
        let none = Vec::new();
        proof {
            assert(row_models(none@) =~= Seq::empty());
        }
        let cols = match self.domains(at, ds, span, lo, none, k) {
            Ok(x) => x,
            Err(e) => {
                return Err(e);
            },
        };
        return Ok(all_rows(&cols));

    }

    /// The values of declared variables.
    fn domains(
        &self,
        at: usize,
        v: &Vec<VarDecl>,
        span: Span,
        lo: &Vec<(String, SVal)>,
        acc0: Vec<Vec<Value>>,
        k: usize
    ) -> (res: Result<Vec<Vec<Value>>, CheckError>)
        ensures
            match (
                res,
                v_domains(
                    self.model(),
                    at as nat,
                    var_decl_models(v@),
                    span,
                    sv_fields(lo@),
                    row_models(acc0@),
                    evaluation(self.model(), k as nat),
                    0
                )
            ) {
                (Ok(v), Ok(m)) => row_models(v@) == m,
                (Err(e), Err(f)) => e.model() == f,
                _ => false,
            },
        decreases k, 3nat,
    {
        let ghost w = self.model();
        let ghost g = evaluation(w, k as nat);
        let mut acc = acc0;
        let mut i: usize = 0;
        while i < v.len()
            invariant
                i <= v@.len(),
                w == self.model(),
                g == evaluation(w, k as nat),
                v_domains(
                    w,
                    at as nat,
                    var_decl_models(v@),
                    span,
                    sv_fields(lo@),
                    row_models(acc@),
                    g,
                    i as int
                ) == v_domains(w, at as nat, var_decl_models(v@), span, sv_fields(lo@), row_models(acc0@), g, 0),
            decreases v.len() - i,
        {
            proof {
                reveal_with_fuel(v_domains, 1);
                assert(var_decl_models(v@)[i as int] == v@[i as int].model());
            }
            let idle: Vec<(usize, String)> = Vec::new();
            proof { assert(busy_views(idle@) =~= Seq::empty()); }
            let ghost dm = v@[i as int].model();
            let t = match self.resolve_ctype(at, &v[i].ty, lo, &idle, k) {
                Ok(x) => x,
                Err(e) => {
                    return Err(e);
                },
            };
            match t.enumerate() {
                Some(vs) => {
                    let count: usize = v[i].names.len();
                    acc = append_columns(acc, count, &vs);
                    i += 1;
                    continue;
                },
                None => {
                    return Err(self.fault(at, span, own("Finite type expected.")));
                },
            }

        }
        proof {
            reveal_with_fuel(v_domains, 1);
        }
        Ok(acc)
    }

    /// The value of an array given element by element.
    fn array(
        &self,
        at: usize,
        d: &VarDecl,
        b: &Expr,
        span: Span,
        lo: &Vec<(String, SVal)>,
        k: usize
    ) -> (res: Result<SVal, CheckError>)
        ensures
            match (
                res,
                v_array(
                    self.model(),
                    at as nat,
                    d.model(),
                    b.model(),
                    span,
                    sv_fields(lo@),
                    evaluation(self.model(), k as nat)
                )
            ) {
                (Ok(v), Ok(m)) => v.model() == m,
                (Err(e), Err(f)) => e.model() == f,
                _ => false,
            },
        decreases k, 6nat,
    {
        let ghost w = self.model();
        let ghost g = evaluation(w, k as nat);
        proof {
            reveal(v_array);
        }
        let idle: Vec<(usize, String)> = Vec::new();
        proof { assert(busy_views(idle@) =~= Seq::empty()); }
        let ghost dm = d.model();
        let t = match self.resolve_ctype(at, &d.ty, lo, &idle, k) {
            Ok(x) => x,
            Err(e) => {
                return Err(e);
            },
        };
        let vals = match t.enumerate() {
            Some(x) => x,
            None => {
                return Err(self.fault(at, span, own("Finite type expected in array literal index.")));
            },
        };
        let none = Vec::new();
        proof {
            assert(sv_models(none@) =~= Seq::empty());
        }
        let vs = match self.elements(at, &vals, &d.names, b, lo, none, k) {
            Ok(x) => x,
            Err(e) => {
                return Err(e);
            },
        };
        return Ok(SVal::Array(Box::new(t), vs));

    }

    /// The values of an expression for each value of a variable.
    fn elements(
        &self,
        at: usize,
        v: &Vec<Value>,
        ids: &Vec<Ident>,
        b: &Expr,
        lo: &Vec<(String, SVal)>,
        acc0: Vec<SVal>,
        k: usize
    ) -> (res: Result<Vec<SVal>, CheckError>)
        ensures
            match (
                res,
                v_elements(
                    self.model(),
                    at as nat,
                    models(v@),
                    ident_models(ids@),
                    b.model(),
                    sv_fields(lo@),
                    sv_models(acc0@),
                    evaluation(self.model(), k as nat),
                    0
                )
            ) {
                (Ok(v), Ok(m)) => sv_models(v@) == m,
                (Err(e), Err(f)) => e.model() == f,
                _ => false,
            },
        decreases k, 3nat,
    {
        let ghost w = self.model();
        let ghost g = evaluation(w, k as nat);
        let mut acc = acc0;
        let mut i: usize = 0;
        while i < v.len()
            invariant
                i <= v@.len(),
                w == self.model(),
                g == evaluation(w, k as nat),
                v_elements(
                    w,
                    at as nat,
                    models(v@),
                    ident_models(ids@),
                    b.model(),
                    sv_fields(lo@),
                    sv_models(acc@),
                    g,
                    i as int
                ) == v_elements(w, at as nat, models(v@), ident_models(ids@), b.model(), sv_fields(lo@), sv_models(acc0@), g, 0),
            decreases v.len() - i,
        {
            proof {
                reveal_with_fuel(v_elements, 1);
                assert(models(v@)[i as int] == v@[i as int].model());
            }
            let inner = add_first(lo, ids, SVal::Ground(v[i].clone()));
            let t = match self.eval(at, b, &inner, k) {
                Ok(x) => x,
                Err(e) => {
                    return Err(e);
                },
            };
            let ghost tm = t.model();
            let ghost a0 = acc@;
            acc.push(t);
            proof { assert(sv_models(acc@) =~= sv_models(a0).push(tm)); }
            i += 1;
            continue;

        }
        proof {
            reveal_with_fuel(v_elements, 1);
        }
        Ok(acc)
    }

    /// The value of a function or array at arguments.
    pub(crate) fn apply(
        &self,
        at: usize,
        f: &SVal,
        args: &Vec<SVal>,
        span: Span,
        k: usize
    ) -> (res: Result<SVal, CheckError>)
        ensures
            match (
                res,
                v_apply(
                    self.model(),
                    at as nat,
                    f.model(),
                    sv_models(args@),
                    span,
                    evaluation(self.model(), k as nat)
                )
            ) {
                (Ok(v), Ok(m)) => v.model() == m,
                (Err(e), Err(f)) => e.model() == f,
                _ => false,
            },
        decreases k, 22nat,
    {
        let ghost w = self.model();
        let ghost g = evaluation(w, k as nat);
        proof {
            reveal(v_apply);
        }
        match f {
            SVal::Fun(Closure::Lambda(ps, body, inst, locs)) => {
                let given = match unpack(args, ps.len()) {
                    Some(x) => x,
                    None => {
                        return Err(self.fault(at, span, own("Wrong number of arguments.")));
                    },
                };
                let inner = add_args(locs, ps, &given);
                return self.eval(*inst, body, &inner, k);
            },
            SVal::Fun(Closure::Builtin(name)) => {
                return self.builtin(at, name, args, span, k);
            },
            SVal::Fun(c) => {
                match apply_data(c, args) {
                    Some(v) => {
                        return Ok(v);
                    },
                    None => {
                        return Err(self.fault(at, span, own("Function cannot be applied to the given value.")));
                    },
                }
            },
            SVal::Array(t, elems) => {
                match select_indexed(t, elems, &pack_args(args)) {
                    Ok(v) => {
                        return Ok(v);
                    },
                    Err(_) => {
                        return Err(self.fault(at, span, own("Index out of bounds.")));
                    },
                }
            },
            SVal::Among(s) => {
                return self.member(at, s, &pack_args(args), span, k);
            },
            _ => {
                return Err(self.fault(at, span, own("Function (array) type expected.")));
            },
        }

    }

    /// The value of an array or function at an index.
    pub(crate) fn select(
        &self,
        at: usize,
        a: &SVal,
        j: SVal,
        span: Span,
        k: usize
    ) -> (res: Result<SVal, CheckError>)
        ensures
            match (
                res,
                v_select(self.model(), at as nat, a.model(), j.model(), span, evaluation(self.model(), k as nat))
            ) {
                (Ok(v), Ok(m)) => v.model() == m,
                (Err(e), Err(f)) => e.model() == f,
                _ => false,
            },
        decreases k, 23nat,
    {
        let ghost w = self.model();
        let ghost g = evaluation(w, k as nat);
        proof {
            reveal(v_select);
        }
        let one = one_sval(j);
        match a {
            SVal::Array(_t, _e) => {
                return self.apply(at, a, &one, span, k);
            },
            SVal::Fun(_c) => {
                return self.apply(at, a, &one, span, k);
            },
            SVal::Among(_s) => {
                return self.apply(at, a, &one, span, k);
            },
            _ => {
                return Err(self.fault(at, span, own("Function (array) type expected.")));
            },
        }

    }

    /// The condition that a value is in a set.
    fn member(&self, at: usize, s: &SetRepr, x: &SVal, span: Span, k: usize) -> (res: Result<SVal, CheckError>)
        ensures
            match (
                res,
                v_member(self.model(), at as nat, s.model(), x.model(), span, evaluation(self.model(), k as nat))
            ) {
                (Ok(v), Ok(m)) => v.model() == m,
                (Err(e), Err(f)) => e.model() == f,
                _ => false,
            },
        decreases k, 4nat,
    {
        let ghost w = self.model();
        let ghost g = evaluation(w, k as nat);
        proof {
            reveal(v_member);
        }
        match s {
            SetRepr::Pred(inst, locs, var, pred) => {
                let inner = add_local(copy_locals(locs), var.clone(), x.copy());
                return self.eval(*inst, pred, &inner, k);
            },
            SetRepr::List(vs) => {
                match is_listed(vs, x) {
                    Some(es) => {
                        return Ok(SVal::from_bool_expr(FExpr::or(es)));
                    },
                    None => {
                        return Err(self.fault(at, span, own("values that cannot be compared")));
                    },
                }
            },
            SetRepr::Bound(b, e) => {
                match numeric_only(x) {
                    Some(y) => {
                        return Ok(SVal::Sym(bound_expr(*b, e.clone(), y), LeafType::Bool));
                    },
                    None => {
                        return Err(self.fault(at, span, own("Numeric expression expected.")));
                    },
                }
            },
        }

    }

    /// The value of a function of the prelude.
    fn builtin(
        &self,
        at: usize,
        name: &String,
        args: &Vec<SVal>,
        span: Span,
        k: usize
    ) -> (res: Result<SVal, CheckError>)
        ensures
            match (
                res,
                v_builtin(self.model(), at as nat, name@, sv_models(args@), span, evaluation(self.model(), k as nat))
            ) {
                (Ok(v), Ok(m)) => v.model() == m,
                (Err(e), Err(f)) => e.model() == f,
                _ => false,
            },
        decreases k, 4nat,
    {
        let ghost w = self.model();
        let ghost g = evaluation(w, k as nat);
        proof {
            reveal(v_builtin);
        }
        if ring_name(name) {
            if args.len() == 0 {
                return Err(self.fault(at, span, own("Wrong number of arguments.")));
            }
            proof {
                assert(sv_models(args@)[0] == args@[0].model());
            }
            return self.ring(at, same(name.as_str(), "rsucc"), &args[0], span, k);
        }
        match apply_builtin(name, args) {
            Ok(v) => {
                return Ok(v);
            },
            Err(m) => {
                return Err(self.fault(at, span, m));
            },
        }

    }

    /// The next or the previous element of a ring.
    fn ring(&self, at: usize, succ: bool, x: &SVal, span: Span, k: usize) -> (res: Result<SVal, CheckError>)
        ensures
            match (res, v_ring(self.model(), at as nat, succ, x.model(), span, evaluation(self.model(), k as nat))) {
                (Ok(v), Ok(m)) => v.model() == m,
                (Err(e), Err(f)) => e.model() == f,
                _ => false,
            },
        decreases k, 3nat,
    {
        let ghost w = self.model();
        let ghost g = evaluation(w, k as nat);
        proof {
            reveal(v_ring);
        }
        let none: Vec<(String, SVal)> = Vec::new();
        proof { assert(sv_fields(none@) =~= Seq::empty()); }
        match x {
            SVal::Ground(Value::Scalar(tid, i)) => {
                let size = match self.find_ring(tid) {
                    Some(x) => x,
                    None => {
                        return Err(self.fault(at, span, own("rsucc/rpred applied to a non-ringset value.")));
                    },
                };
                let v = match self.eval(size.0, size.1, &none, k) {
                    Ok(x) => x,
                    Err(e) => {
                        return Err(e);
                    },
                };
                match find_size(&v) {
                    Some(n) => {
                        if n == 0 {
                            return Err(self.fault(at, span, own("rsucc/rpred applied to a non-ringset value.")));
                        }
                        return Ok(SVal::Ground(Value::Scalar(tid.clone(), shift(succ, *i, n))));
                    },
                    None => {
                        return Err(self.fault(at, span, own("rsucc/rpred applied to a non-ringset value.")));
                    },
                }
            },
            SVal::Sym(e, LeafType::Scalar(tid, es)) => {
                let _r = match self.find_ring(tid) {
                    Some(x) => x,
                    None => {
                        return Err(self.fault(at, span, own("rsucc/rpred applied to a non-ringset value.")));
                    },
                };
                if es.len() == 0 {
                    return Err(self.fault(at, span, own("rsucc/rpred on empty ringset.")));
                }
                return Ok(ring_chain(e, tid, succ, es));
            },
            _ => {
                return Err(self.fault(at, span, own("rsucc/rpred applied to a non-ringset value.")));
            },
        }

    }

    /// A value with the part that accesses lead to, from access `j` on, replaced.
    fn update_step(
        &self,
        at: usize,
        t: &SVal,
        acs: &Vec<Access>,
        j: usize,
        val: &SVal,
        span: Span,
        lo: &Vec<(String, SVal)>,
        k: usize
    ) -> (res: Result<SVal, CheckError>)
        ensures
            match (
                res,
                v_update_step(
                    self.model(),
                    at as nat,
                    t.model(),
                    access_models(acs@),
                    j as nat,
                    val.model(),
                    span,
                    sv_fields(lo@),
                    evaluation(self.model(), k as nat)
                )
            ) {
                (Ok(v), Ok(m)) => v.model() == m,
                (Err(e), Err(f)) => e.model() == f,
                _ => false,
            },
        decreases k, 10nat,
    {
        let ghost w = self.model();
        let ghost g = evaluation(w, k as nat);
        proof {
            reveal(v_update_step);
        }
        if j >= acs.len() {
            return Ok(val.copy());
        }
        proof {
            assert(access_models(acs@)[j as int] == acs@[j as int].model());
        }
        match t {
            SVal::Ground(v) => {
                let up = match raise_value(v) {
                    Some(x) => x,
                    None => {
                        return Err(self.fault(at, span, own("Internal: array value without index type.")));
                    },
                };
                return self.update(at, &up, acs, j, val, span, lo, k);
            },
            _ => {
                match &acs[j] {
                    Access::Array(ie) => {
                        let iv = match self.eval(at, ie, lo, k) {
                            Ok(x) => x,
                            Err(e) => {
                                return Err(e);
                            },
                        };
                        return self.update_at(at, t, &iv, acs, j, val, span, lo, k);
                    },
                    Access::Args(es) => {
                        let none = Vec::new();
                        proof {
                            assert(sv_models(none@) =~= Seq::empty());
                        }
                        let vs = match self.exprs(at, es, lo, none, k) {
                            Ok(x) => x,
                            Err(e) => {
                                return Err(e);
                            },
                        };
                        let iv = pack_args(&vs);
                        return self.update_at(at, t, &iv, acs, j, val, span, lo, k);
                    },
                    Access::Record(f) => {
                        return self.update_field(at, t, f, acs, j, val, span, lo, k);
                    },
                    Access::Tuple(n) => {
                        return self.update_part(at, t, *n, acs, j, val, span, lo, k);
                    },
                }
            },
        }

    }

    /// A record with a part replaced.
    fn update_field(
        &self,
        at: usize,
        t: &SVal,
        f: &Ident,
        acs: &Vec<Access>,
        j: usize,
        val: &SVal,
        span: Span,
        lo: &Vec<(String, SVal)>,
        k: usize
    ) -> (res: Result<SVal, CheckError>)
        requires
            j < acs@.len(),
        ensures
            match (
                res,
                v_update_field(
                    self.model(),
                    at as nat,
                    t.model(),
                    f.model(),
                    access_models(acs@),
                    j as nat,
                    val.model(),
                    span,
                    sv_fields(lo@),
                    evaluation(self.model(), k as nat)
                )
            ) {
                (Ok(v), Ok(m)) => v.model() == m,
                (Err(e), Err(f)) => e.model() == f,
                _ => false,
            },
        decreases k, 3nat,
    {
        let ghost w = self.model();
        let ghost g = evaluation(w, k as nat);
        proof {
            reveal(v_update_field);
        }
        let _count: usize = acs.len();
        match t {
            SVal::Record(fs) => {
                let p = match find_field_place(fs, &f.name) {
                    Some(x) => x,
                    None => {
                        return Err(self.fault(at, f.span, text3("Unknown record field \"", f.name.as_str(), "\".")));
                    },
                };
                proof {
                    assert(sv_fields(fs@)[p as int] == (fs@[p as int].0@, fs@[p as int].1.model()));
                }
                let v = match self.update(at, &fs[p].1, acs, j + 1, val, span, lo, k) {
                    Ok(x) => x,
                    Err(e) => {
                        return Err(e);
                    },
                };
                return Ok(SVal::Record(set_field(fs, p, v)));
            },
            _ => {
                return Err(self.fault(at, span, own("Invalid WITH update.")));
            },
        }

    }

    /// A tuple with a part replaced.
    fn update_part(
        &self,
        at: usize,
        t: &SVal,
        n: u32,
        acs: &Vec<Access>,
        j: usize,
        val: &SVal,
        span: Span,
        lo: &Vec<(String, SVal)>,
        k: usize
    ) -> (res: Result<SVal, CheckError>)
        requires
            j < acs@.len(),
        ensures
            match (
                res,
                v_update_part(
                    self.model(),
                    at as nat,
                    t.model(),
                    n as nat,
                    access_models(acs@),
                    j as nat,
                    val.model(),
                    span,
                    sv_fields(lo@),
                    evaluation(self.model(), k as nat)
                )
            ) {
                (Ok(v), Ok(m)) => v.model() == m,
                (Err(e), Err(f)) => e.model() == f,
                _ => false,
            },
        decreases k, 3nat,
    {
        let ghost w = self.model();
        let ghost g = evaluation(w, k as nat);
        proof {
            reveal(v_update_part);
        }
        let _count: usize = acs.len();
        match t {
            SVal::Tuple(vs) => {
                if n < 1 || n as usize > vs.len() {
                    return Err(self.fault(at, span, own("Tuple index out of bounds.")));
                }
                proof {
                    assert(sv_models(vs@)[n - 1] == vs@[n - 1].model());
                }
                let v = match self.update(at, &vs[n as usize - 1], acs, j + 1, val, span, lo, k) {
                    Ok(x) => x,
                    Err(e) => {
                        return Err(e);
                    },
                };
                return Ok(SVal::Tuple(set_sval(vs, n as usize - 1, v)));
            },
            _ => {
                return Err(self.fault(at, span, own("Invalid WITH update.")));
            },
        }

    }

    /// An array with a part of an element replaced.
    fn update_at(
        &self,
        at: usize,
        t: &SVal,
        iv: &SVal,
        acs: &Vec<Access>,
        j: usize,
        val: &SVal,
        span: Span,
        lo: &Vec<(String, SVal)>,
        k: usize
    ) -> (res: Result<SVal, CheckError>)
        requires
            j < acs@.len(),
        ensures
            match (
                res,
                v_update_at(
                    self.model(),
                    at as nat,
                    t.model(),
                    iv.model(),
                    access_models(acs@),
                    j as nat,
                    val.model(),
                    span,
                    sv_fields(lo@),
                    evaluation(self.model(), k as nat)
                )
            ) {
                (Ok(v), Ok(m)) => v.model() == m,
                (Err(e), Err(f)) => e.model() == f,
                _ => false,
            },
        decreases k, 5nat,
    {
        let ghost w = self.model();
        let ghost g = evaluation(w, k as nat);
        proof {
            reveal(v_update_at);
        }
        let _count: usize = acs.len();
        match t {
            SVal::Array(it, es) => {
                match iv {
                    SVal::Ground(v) => {
                        let p = match it.index_of(v) {
                            Some(x) => x,
                            None => {
                                return Err(self.fault(at, span, own("Index out of bounds.")));
                            },
                        };
                        if p >= es.len() {
                            return Err(self.fault(at, span, own("Index out of bounds.")));
                        }
                        proof {
                            assert(sv_models(es@)[p as int] == es@[p as int].model());
                        }
                        let u = match self.update(at, &es[p], acs, j + 1, val, span, lo, k) {
                            Ok(x) => x,
                            Err(e) => {
                                return Err(e);
                            },
                        };
                        return Ok(SVal::Array(Box::new(it.copy()), set_sval(es, p, u)));
                    },
                    _ => {
                        let vals = match it.enumerate() {
                            Some(x) => x,
                            None => {
                                return Err(self.fault(at, span, own("Finite index type expected.")));
                            },
                        };
                        let all = copy_svals(es);
                        let us = match self.update_all(at, &vals, iv, acs, j, val, span, lo, all, k) {
                            Ok(x) => x,
                            Err(e) => {
                                return Err(e);
                            },
                        };
                        return Ok(SVal::Array(Box::new(it.copy()), us));
                    },
                }
            },
            _ => {
                return Err(self.fault(at, span, own("Invalid WITH update.")));
            },
        }

    }

    /// Every element of an array with a part replaced, where the index has its index value.
    fn update_all(
        &self,
        at: usize,
        v: &Vec<Value>,
        iv: &SVal,
        acs: &Vec<Access>,
        j: usize,
        val: &SVal,
        span: Span,
        lo: &Vec<(String, SVal)>,
        acc0: Vec<SVal>,
        k: usize
    ) -> (res: Result<Vec<SVal>, CheckError>)
        requires
            j < acs@.len(),
        ensures
            match (
                res,
                v_update_all(
                    self.model(),
                    at as nat,
                    models(v@),
                    iv.model(),
                    access_models(acs@),
                    j as nat,
                    val.model(),
                    span,
                    sv_fields(lo@),
                    sv_models(acc0@),
                    evaluation(self.model(), k as nat),
                    0
                )
            ) {
                (Ok(v), Ok(m)) => sv_models(v@) == m,
                (Err(e), Err(f)) => e.model() == f,
                _ => false,
            },
        decreases k, 3nat,
    {
        let ghost w = self.model();
        let ghost g = evaluation(w, k as nat);
        let mut acc = acc0;
        let mut i: usize = 0;
        while i < v.len()
            invariant
                i <= v@.len(),
                w == self.model(),
                g == evaluation(w, k as nat),
                v_update_all(
                    w,
                    at as nat,
                    models(v@),
                    iv.model(),
                    access_models(acs@),
                    j as nat,
                    val.model(),
                    span,
                    sv_fields(lo@),
                    sv_models(acc@),
                    g,
                    i as int
                ) == v_update_all(w, at as nat, models(v@), iv.model(), access_models(acs@), j as nat, val.model(), span, sv_fields(lo@), sv_models(acc0@), g, 0),
                j < acs@.len(),
            decreases v.len() - i,
        {
            proof {
                reveal_with_fuel(v_update_all, 1);
                assert(models(v@)[i as int] == v@[i as int].model());
            }
            let _count: usize = acs.len();
            if i >= acc.len() {
                return Ok(acc);
            }
            let c = match equal_to(iv, &v[i]) {
                Some(x) => x,
                None => {
                    return Err(self.fault(at, span, own("values that cannot be compared")));
                },
            };
            proof {
                assert(sv_models(acc@)[i as int] == acc@[i as int].model());
            }
            let u = match self.update(at, &acc[i], acs, j + 1, val, span, lo, k) {
                Ok(x) => x,
                Err(e) => {
                    return Err(e);
                },
            };
            let z = match merged_value(&c, &u, &acc[i]) {
                Some(x) => x,
                None => {
                    return Err(self.fault(at, span, own("values that cannot be merged")));
                },
            };
            acc = set_sval(&acc, i, z);
            i += 1;
            continue;

        }
        proof {
            reveal_with_fuel(v_update_all, 1);
        }
        Ok(acc)
    }

    /// The symbolic value of an expression.
    pub fn eval(
        &self,
        at: usize,
        x: &Expr,
        lo: &Vec<(String, SVal)>,
        k: usize
    ) -> (res: Result<SVal, CheckError>)
        ensures
            match (res, (evaluation(self.model(), k as nat).eval)(at as nat, x.model(), sv_fields(lo@))) {
                (Ok(v), Ok(m)) => v.model() == m,
                (Err(e), Err(f)) => e.model() == f,
                _ => false,
            },
        decreases k, 0nat,
    {
        proof {
            evaluation_rules(self.model(), k as nat);
        }
        if k == 0 {
            return Err(self.fault(at, x.span, own("Evaluation depth exceeded (non-terminating recursion?).")));
        }
        self.eval_inner(at, x, lo, k - 1)
    }

    /// The type that a type expression stands for, with its bounds.
    pub fn resolve_ctype(
        &self,
        at: usize,
        x: &Type,
        lo: &Vec<(String, SVal)>,
        busy: &Vec<(usize, String)>,
        k: usize
    ) -> (res: Result<CType, CheckError>)
        ensures
            match (
                res,
                (evaluation(self.model(), k as nat).ctype)(at as nat, x.model(), sv_fields(lo@), busy_views(busy@))
            ) {
                (Ok(v), Ok(m)) => v.model() == m,
                (Err(e), Err(f)) => e.model() == f,
                _ => false,
            },
        decreases k, 0nat,
    {
        proof {
            evaluation_rules(self.model(), k as nat);
        }
        if k == 0 {
            return Err(CheckError::Deep);
        }
        self.type_of(at, x, lo, busy, k - 1)
    }

    pub(crate) fn update(
        &self,
        at: usize,
        t: &SVal,
        acs: &Vec<Access>,
        j: usize,
        val: &SVal,
        span: Span,
        lo: &Vec<(String, SVal)>,
        k: usize
    ) -> (res: Result<SVal, CheckError>)
        ensures
            match (
                res,
                (evaluation(self.model(), k as nat).update)(
                    at as nat,
                    t.model(),
                    access_models(acs@),
                    j as nat,
                    val.model(),
                    span,
                    sv_fields(lo@)
                )
            ) {
                (Ok(v), Ok(m)) => v.model() == m,
                (Err(e), Err(f)) => e.model() == f,
                _ => false,
            },
        decreases k, 0nat,
    {
        proof {
            evaluation_rules(self.model(), k as nat);
        }
        if k == 0 {
            return Err(CheckError::Deep);
        }
        self.update_step(at, t, acs, j, val, span, lo, k - 1)
    }
}

} // verus!
