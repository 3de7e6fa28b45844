//! The flat transition systems that modules stand for.

use crate::arrange::{parts_of, Parts};
use crate::ast::{
    access_models, base_decl_models, def_or_command_models, definition_models, expr_models, ident_models,
    lhs_lhs_pairs, new_var_decl_models, rhs_expr, rhs_parts, rhs_selection, some_command_models, var_decl_models,
    Access, AssertionExpr, AssertionExprV, BaseDecl, BaseModule, DefOrCommand, Definition, Expr, ExprV,
    GuardedCommand, Ident, Lhs, Module, ModuleKind, ModuleV, Name, NewVarDecl, Rhs, SimpleDefinition, SomeCommand,
    Type, TypeKind, VarClass, VarDecl,
};
use crate::blocks::{
    add_constraint, add_defined, add_elab_var, add_init_block, add_init_def, add_invariant, add_trans_def,
    as_condition, empty_elab, equal_svals, find_fixed_element, find_skel_element, find_transition, find_type_part,
    guards, join_also, label_of, list_guards, make_head, make_part, make_stutter, opt_copy, put_fronted, reclass,
    set_trans, set_vars,
};
use crate::calc::{
    add_args, add_first, add_local, add_row, append_columns, busy_views, find_local, find_record_part,
    find_tuple_part, list_all_names, one_sval, opt_fe,
};
use crate::compose::{make_trans, merge_multi, rename_vars};
use crate::ctype::{all_rows, ct_fields, ct_models, row_models, rows, values, CType};
use crate::elaboration::{
    build, build_rules, f_alloc_elements, f_alloc_parts, f_alloc_record, f_alloc_tuple, f_allocated, f_assign,
    f_assign_among, f_assign_value, f_base, f_base_groups, f_base_names, f_base_vars, f_bound_columns, f_cmd_body,
    f_cmd_list, f_cmd_rows, f_commands, f_compared, f_composed, f_copies, f_def_body, f_def_list, f_def_rows,
    f_effect, f_else_cmd, f_else_cmds, f_else_opt, f_expand_bindings, f_guard_of, f_guarded, f_guarded_by,
    f_guarded_opt, f_head_list, f_head_of, f_head_rows, f_heads_of, f_init_items, f_instance, f_invariant_defs,
    f_lhs, f_lhs_step, f_lhs_steps, f_module_body, f_module_rest, f_multi, f_rename_targets, f_sections,
    f_select_step, f_select_steps, f_simple, f_slice_ctype, f_slice_skel, f_slice_step, f_sub_groups, f_sub_names,
    f_sub_vars, f_subtype_of, f_symbolic_lhs, f_symbolic_part, f_symbolic_value, f_trans_items, f_with_decls,
    f_with_groups, f_with_names, DEPTH,
};
use crate::env::{context_views, inst_views, text3, Entry, EntryV};
use crate::error::{put_place, SalError};
use crate::eval::Flattener;
use crate::fexpr::{fe_models, FExpr, LeafId, LeafInfo, LeafType};
use crate::flat::{block_models, cmd_models, opt_text, Component, FlatCmd, FlatModule, Sys, TopVar};
use crate::formula::{TFormula, TF};
use crate::judgement::{symbol_at, World, CR};
use crate::library::{report, reports, SalEnv};
use crate::meaning::{evaluation, fault};
use crate::operators::{condition, formula, to_formula};
use crate::parser::opt_expr;
use crate::skel::{
    add_block, add_cmd, add_fexpr, add_leaf, add_state, add_var, copy_entries, elabs, entries, find_ambient,
    find_entry_place, leaf_infos, make_dotted, make_indexed, make_numbered, merge_binary, share, show_all,
    skel_leaves, state_locals, Elab, ElabV, LeafV, VarE, VarEntry, VarsV,
};
use crate::span::Span;
use crate::sval::{copy_locals, sv_fields, sv_models, SVal};
use crate::text::{own, put, views};
use crate::value::{models, Value};
use crate::wfc::CheckError;
use std::collections::BTreeSet;
use vstd::prelude::*;

verus! {

impl<'e> Flattener<'e> {
    /// Where a part of an instance's commands comes from.
    fn place(&self, at: usize, prov: &String, what: &str, span: Span) -> String {
        let mut r = prov.clone();
        put(&mut r, what);
        if at < self.insts.len() {
            put(&mut r, self.insts[at].name.as_str());
        }
        put_place(&mut r, span);
        r
    }

    /// Where the commands of an instance of a module come from.
    fn module_provenance(&self, at: usize, prov: &String, span: Span) -> String {
        let mut r = self.place(at, prov, "(module instance at [Context: ", span);
        put(&mut r, ") ");
        r
    }

    /// Where a command comes from.
    fn provenance(&self, at: usize, prov: &String, c: &GuardedCommand) -> String {
        let mut what = own("(label ");
        match &c.label {
            Some(l) => {
                put(&mut what, l.name.as_str());
            },
            None => {
                put(&mut what, "<unlabeled>");
            },
        }
        put(&mut what, " transition at [Context: ");
        let mut r = self.place(at, prov, what.as_str(), c.span);
        put(&mut r, ")");
        r
    }

    /// A state variable of a type: its symbolic value, and its leaves behind those there are.
    fn allocated(
        &self,
        at: usize,
        path: &String,
        t: &CType,
        class: VarClass,
        span: Span,
        ls: Vec<LeafInfo>,
        k: usize
    ) -> (res: Result<(SVal, Vec<LeafInfo>), CheckError>)
        ensures
            match (
                res,
                f_allocated(
                    self.model(),
                    at as nat,
                    path@,
                    t.model(),
                    class,
                    span,
                    leaf_infos(ls@),
                    build(self.model(), k as nat)
                )
            ) {
                (Ok(v), Ok(m)) => v.0.model() == m.0 && leaf_infos(v.1@) == m.1,
                (Err(e), Err(f)) => e.model() == f,
                _ => false,
            },
        decreases k, 10nat,
    {
        let ghost w = self.model();
        let ghost g = build(w, k as nat);
        proof {
            reveal(f_allocated);
        }
        match LeafType::from_ctype(t) {
            Some(lt) => {
                if ls.len() >= 4_294_967_295 {
                    return Err(self.fault(at, span, own("Too many leaves.")));
                }
                return Ok((SVal::Sym(FExpr::Var(ls.len() as u32, false), lt.clone()), add_leaf(ls, path.clone(), lt, class)));
            },
            None => {
                return self.alloc_parts(at, path, t, class, span, ls, k);
            },
        }

    }

    /// A state variable of a type with parts.
    fn alloc_parts(
        &self,
        at: usize,
        path: &String,
        t: &CType,
        class: VarClass,
        span: Span,
        ls: Vec<LeafInfo>,
        k: usize
    ) -> (res: Result<(SVal, Vec<LeafInfo>), CheckError>)
        ensures
            match (
                res,
                f_alloc_parts(
                    self.model(),
                    at as nat,
                    path@,
                    t.model(),
                    class,
                    span,
                    leaf_infos(ls@),
                    build(self.model(), k as nat)
                )
            ) {
                (Ok(v), Ok(m)) => v.0.model() == m.0 && leaf_infos(v.1@) == m.1,
                (Err(e), Err(f)) => e.model() == f,
                _ => false,
            },
        decreases k, 8nat,
    {
        let ghost w = self.model();
        let ghost g = build(w, k as nat);
        proof {
            reveal(f_alloc_parts);
        }
        let none = Vec::new();
        proof {
            assert(sv_models(none@) =~= Seq::empty());
        }
        match t {
            CType::Tuple(ts) => {
                let r = match self.alloc_tuple(at, path, ts, class, span, none, ls, k) {
                    Ok(x) => x,
                    Err(e) => {
                        return Err(e);
                    },
                };
                return Ok((SVal::Tuple(r.0), r.1));
            },
            CType::Record(fs) => {
                let nof = Vec::new();
                proof {
                    assert(sv_fields(nof@) =~= Seq::empty());
                }
                let r = match self.alloc_record(at, path, fs, class, span, nof, ls, k) {
                    Ok(x) => x,
                    Err(e) => {
                        return Err(e);
                    },
                };
                return Ok((SVal::Record(r.0), r.1));
            },
            CType::Array(i1, e1) | CType::Fun(i1, e1) => {
                let vals = match i1.enumerate() {
                    Some(x) => x,
                    None => {
                        return Err(self.fault(at, span, text3("Finite type expected as the index of state variable \"", path.as_str(), "\".")));
                    },
                };
                let r = match self.alloc_elements(at, path, &vals, i1, e1, class, span, none, ls, k) {
                    Ok(x) => x,
                    Err(e) => {
                        return Err(e);
                    },
                };
                return Ok((SVal::Array(Box::new(i1.copy()), r.0), r.1));
            },
            CType::Data(id, _cs) => {
                if !t.is_finite() {
                    return Err(self.fault(at, span, text3("Finite type expected for state variable \"", path.as_str(), "\" (recursive datatype).")));
                }
                let vals = match t.enumerate() {
                    Some(x) => x,
                    None => {
                        return Err(self.fault(at, span, text3("Finite type expected for state variable \"", path.as_str(), "\" (recursive datatype).")));
                    },
                };
                if ls.len() >= 4_294_967_295 {
                    return Err(self.fault(at, span, own("Too many leaves.")));
                }
                let lt = LeafType::Scalar(id.clone(), show_all(t, &vals));
                return Ok((SVal::Sym(FExpr::Var(ls.len() as u32, false), lt.clone()), add_leaf(ls, path.clone(), lt, class)));
            },
            _ => {
                return Err(self.fault(at, span, text3("Finite type expected for state variable \"", path.as_str(), "\" (uninterpreted type).")));
            },
        }

    }

    /// The parts of a tuple.
    fn alloc_tuple(
        &self,
        at: usize,
        path: &String,
        v: &Vec<CType>,
        class: VarClass,
        span: Span,
        acc0: Vec<SVal>,
        ls0: Vec<LeafInfo>,
        k: usize
    ) -> (res: Result<(Vec<SVal>, Vec<LeafInfo>), CheckError>)
        ensures
            match (
                res,
                f_alloc_tuple(
                    self.model(),
                    at as nat,
                    path@,
                    ct_models(v@),
                    class,
                    span,
                    sv_models(acc0@),
                    leaf_infos(ls0@),
                    build(self.model(), k as nat),
                    0
                )
            ) {
                (Ok(v), Ok(m)) => sv_models(v.0@) == m.0 && leaf_infos(v.1@) == m.1,
                (Err(e), Err(f)) => e.model() == f,
                _ => false,
            },
        decreases k, 3nat,
    {
        let ghost w = self.model();
        let ghost g = build(w, k as nat);
        let mut acc = acc0;
        let mut ls = ls0;
        let mut i: usize = 0;
        while i < v.len()
            invariant
                i <= v@.len(),
                w == self.model(),
                g == build(w, k as nat),
                f_alloc_tuple(
                    w,
                    at as nat,
                    path@,
                    ct_models(v@),
                    class,
                    span,
                    sv_models(acc@),
                    leaf_infos(ls@),
                    g,
                    i as int
                ) == f_alloc_tuple(w, at as nat, path@, ct_models(v@), class, span, sv_models(acc0@), leaf_infos(ls0@), g, 0),
            decreases v.len() - i,
        {
            proof {
                reveal_with_fuel(f_alloc_tuple, 1);
                assert(ct_models(v@)[i as int] == v@[i as int].model());
            }
            let (v1, ls1) = match self.alloc_skel(at, &make_numbered(path, i), &v[i], class, span, ls, k) {
                Ok(x) => x,
                Err(e) => {
                    return Err(e);
                },
            };
            let ghost tm = v1.model();
            let ghost a0 = acc@;
            acc.push(v1);
            proof { assert(sv_models(acc@) =~= sv_models(a0).push(tm)); }
            ls = ls1;
            i += 1;
            continue;

        }
        proof {
            reveal_with_fuel(f_alloc_tuple, 1);
        }
        Ok((acc, ls))
    }

    /// The fields of a record.
    fn alloc_record(
        &self,
        at: usize,
        path: &String,
        v: &Vec<(String, CType)>,
        class: VarClass,
        span: Span,
        acc0: Vec<(String, SVal)>,
        ls0: Vec<LeafInfo>,
        k: usize
    ) -> (res: Result<(Vec<(String, SVal)>, Vec<LeafInfo>), CheckError>)
        ensures
            match (
                res,
                f_alloc_record(
                    self.model(),
                    at as nat,
                    path@,
                    ct_fields(v@),
                    class,
                    span,
                    sv_fields(acc0@),
                    leaf_infos(ls0@),
                    build(self.model(), k as nat),
                    0
                )
            ) {
                (Ok(v), Ok(m)) => sv_fields(v.0@) == m.0 && leaf_infos(v.1@) == m.1,
                (Err(e), Err(f)) => e.model() == f,
                _ => false,
            },
        decreases k, 3nat,
    {
        let ghost w = self.model();
        let ghost g = build(w, k as nat);
        let mut acc = acc0;
        let mut ls = ls0;
        let mut i: usize = 0;
        while i < v.len()
            invariant
                i <= v@.len(),
                w == self.model(),
                g == build(w, k as nat),
                f_alloc_record(
                    w,
                    at as nat,
                    path@,
                    ct_fields(v@),
                    class,
                    span,
                    sv_fields(acc@),
                    leaf_infos(ls@),
                    g,
                    i as int
                ) == f_alloc_record(w, at as nat, path@, ct_fields(v@), class, span, sv_fields(acc0@), leaf_infos(ls0@), g, 0),
            decreases v.len() - i,
        {
            proof {
                reveal_with_fuel(f_alloc_record, 1);
                assert(ct_fields(v@)[i as int] == (v@[i as int].0@, v@[i as int].1.model()));
            }
            let (v1, ls1) = match self.alloc_skel(
                at,
                &make_dotted(path, &v[i].0),
                &v[i].1,
                class,
                span,
                ls,
                k
            ) {
                Ok(x) => x,
                Err(e) => {
                    return Err(e);
                },
            };
            acc = add_local(acc, v[i].0.clone(), v1);
            ls = ls1;
            i += 1;
            continue;

        }
        proof {
            reveal_with_fuel(f_alloc_record, 1);
        }
        Ok((acc, ls))
    }

    /// The elements of an array.
    fn alloc_elements(
        &self,
        at: usize,
        path: &String,
        v: &Vec<Value>,
        it: &CType,
        et: &CType,
        class: VarClass,
        span: Span,
        acc0: Vec<SVal>,
        ls0: Vec<LeafInfo>,
        k: usize
    ) -> (res: Result<(Vec<SVal>, Vec<LeafInfo>), CheckError>)
        ensures
            match (
                res,
                f_alloc_elements(
                    self.model(),
                    at as nat,
                    path@,
                    models(v@),
                    it.model(),
                    et.model(),
                    class,
                    span,
                    sv_models(acc0@),
                    leaf_infos(ls0@),
                    build(self.model(), k as nat),
                    0
                )
            ) {
                (Ok(v), Ok(m)) => sv_models(v.0@) == m.0 && leaf_infos(v.1@) == m.1,
                (Err(e), Err(f)) => e.model() == f,
                _ => false,
            },
        decreases k, 3nat,
    {
        let ghost w = self.model();
        let ghost g = build(w, k as nat);
        let mut acc = acc0;
        let mut ls = ls0;
        let mut i: usize = 0;
        while i < v.len()
            invariant
                i <= v@.len(),
                w == self.model(),
                g == build(w, k as nat),
                f_alloc_elements(
                    w,
                    at as nat,
                    path@,
                    models(v@),
                    it.model(),
                    et.model(),
                    class,
                    span,
                    sv_models(acc@),
                    leaf_infos(ls@),
                    g,
                    i as int
                ) == f_alloc_elements(w, at as nat, path@, models(v@), it.model(), et.model(), class, span, sv_models(acc0@), leaf_infos(ls0@), g, 0),
            decreases v.len() - i,
        {
            proof {
                reveal_with_fuel(f_alloc_elements, 1);
                assert(models(v@)[i as int] == v@[i as int].model());
            }
            let (v1, ls1) = match self.alloc_skel(at, &make_indexed(path, it, &v[i]), et, class, span, ls, k) {
                Ok(x) => x,
                Err(e) => {
                    return Err(e);
                },
            };
            let ghost tm = v1.model();
            let ghost a0 = acc@;
            acc.push(v1);
            proof { assert(sv_models(acc@) =~= sv_models(a0).push(tm)); }
            ls = ls1;
            i += 1;
            continue;

        }
        proof {
            reveal_with_fuel(f_alloc_elements, 1);
        }
        Ok((acc, ls))
    }

    /// The predicates of a type, of a state variable.
    fn subtype_of(
        &self,
        at: usize,
        x: &Type,
        skel: &SVal,
        span: Span,
        lo: &Vec<(String, SVal)>,
        k: usize
    ) -> (res: Result<Option<FExpr>, CheckError>)
        ensures
            match (
                res,
                f_subtype_of(
                    self.model(),
                    at as nat,
                    x.model(),
                    skel.model(),
                    span,
                    sv_fields(lo@),
                    build(self.model(), k as nat)
                )
            ) {
                (Ok(v), Ok(m)) => opt_fe(v) == m,
                (Err(e), Err(f)) => e.model() == f,
                _ => false,
            },
        decreases k, 4nat,
    {
        let ghost w = self.model();
        let ghost g = build(w, k as nat);
        proof {
            reveal(f_subtype_of);
        }
        let ghost xm = x.kind.model();
        match &x.kind {
            TypeKind::Subtype(sp) => {
                let ghost spm = sp.model();
                let ghost svm = sp.var.model();
                let inner = match self.subtype_constraint(at, &sp.ty, skel, span, lo, k) {
                    Ok(x) => x,
                    Err(e) => {
                        return Err(e);
                    },
                };
                let lo2 = add_local(copy_locals(lo), sp.var.name.clone(), skel.copy());
                let v = match self.eval(at, &sp.pred, &lo2, DEPTH) {
                    Ok(x) => x,
                    Err(e) => {
                        return Err(e);
                    },
                };
                let c = match as_condition(&v) {
                    Some(x) => x,
                    None => {
                        return Err(self.fault(at, span, own("boolean expression expected")));
                    },
                };
                return Ok(Some(join_also(inner, c)));
            },
            _ => {
                return Ok(None);
            },
        }

    }

    /// The rows of values of bound variables.
    fn expand_bindings(
        &self,
        at: usize,
        ds: &Vec<VarDecl>,
        lo: &Vec<(String, SVal)>,
        k: usize
    ) -> (res: Result<Vec<Vec<Value>>, CheckError>)
        ensures
            match (
                res,
                f_expand_bindings(
                    self.model(),
                    at as nat,
                    var_decl_models(ds@),
                    sv_fields(lo@),
                    build(self.model(), k as nat)
                )
            ) {
                (Ok(v), Ok(m)) => row_models(v@) == m,
                (Err(e), Err(f)) => e.model() == f,
                _ => false,
            },
        decreases k, 5nat,
    {
        let ghost w = self.model();
        let ghost g = build(w, k as nat);
        proof {
            reveal(f_expand_bindings);
        }
        let none = Vec::new();
        proof {
            assert(row_models(none@) =~= Seq::empty());
        }
        let cols = match self.bound_columns(at, ds, lo, none, k) {
            Ok(x) => x,
            Err(e) => {
                return Err(e);
            },
        };
        return Ok(all_rows(&cols));

    }

    /// The values of bound variables.
    fn bound_columns(
        &self,
        at: usize,
        v: &Vec<VarDecl>,
        lo: &Vec<(String, SVal)>,
        acc0: Vec<Vec<Value>>,
        k: usize
    ) -> (res: Result<Vec<Vec<Value>>, CheckError>)
        ensures
            match (
                res,
                f_bound_columns(
                    self.model(),
                    at as nat,
                    var_decl_models(v@),
                    sv_fields(lo@),
                    row_models(acc0@),
                    build(self.model(), k as nat),
                    0
                )
            ) {
                (Ok(v), Ok(m)) => row_models(v@) == m,
                (Err(e), Err(f)) => e.model() == f,
                _ => false,
            },
        decreases k, 3nat,
    {
        let ghost w = self.model();
        let ghost g = build(w, k as nat);
        let mut acc = acc0;
        let mut i: usize = 0;
        while i < v.len()
            invariant
                i <= v@.len(),
                w == self.model(),
                g == build(w, k as nat),
                f_bound_columns(
                    w,
                    at as nat,
                    var_decl_models(v@),
                    sv_fields(lo@),
                    row_models(acc@),
                    g,
                    i as int
                ) == f_bound_columns(w, at as nat, var_decl_models(v@), sv_fields(lo@), row_models(acc0@), g, 0),
            decreases v.len() - i,
        {
            proof {
                reveal_with_fuel(f_bound_columns, 1);
                assert(var_decl_models(v@)[i as int] == v@[i as int].model());
            }
            let idle: Vec<(usize, String)> = Vec::new();
            proof { assert(busy_views(idle@) =~= Seq::empty()); }
            let ghost dm = v@[i as int].model();
            let t = match self.resolve_ctype(at, &v[i].ty, lo, &idle, DEPTH) {
                Ok(x) => x,
                Err(e) => {
                    return Err(e);
                },
            };
            match t.enumerate() {
                Some(vs) => {
                    let count: usize = v[i].names.len();
                    acc = append_columns(acc, count, &vs);
                    i += 1;
                    continue;
                },
                None => {
                    return Err(self.fault(at, v[i].span, own("Finite type expected.")));
                },
            }

        }
        proof {
            reveal_with_fuel(f_bound_columns, 1);
        }
        Ok(acc)
    }

    /// The condition that a definition states.
    fn def_body(
        &self,
        at: usize,
        x: &Definition,
        next: bool,
        lo: &Vec<(String, SVal)>,
        k: usize
    ) -> (res: Result<FExpr, CheckError>)
        ensures
            match (
                res,
                f_def_body(
                    self.model(),
                    at as nat,
                    x.model(),
                    next,
                    sv_fields(lo@),
                    build(self.model(), k as nat)
                )
            ) {
                (Ok(v), Ok(m)) => v.model() == m,
                (Err(e), Err(f)) => e.model() == f,
                _ => false,
            },
        decreases k, 14nat,
    {
        let ghost w = self.model();
        let ghost g = build(w, k as nat);
        proof {
            reveal(f_def_body);
        }
        match x {
            Definition::Forall(ds, defs) => {
                let names = list_all_names(ds);
                let rows = match self.expand_bindings(at, ds, lo, k) {
                    Ok(x) => x,
                    Err(e) => {
                        return Err(e);
                    },
                };
                let none = Vec::new();
                proof {
                    assert(fe_models(none@) =~= Seq::empty());
                }
                let cs = match self.def_rows(at, &rows, &names, defs, next, lo, none, k) {
                    Ok(x) => x,
                    Err(e) => {
                        return Err(e);
                    },
                };
                return Ok(FExpr::and(cs));
            },
            Definition::Simple(s) => {
                let ghost sm = s.model();
                return self.simple(at, s, next, lo, k);
            },
        }

    }

    /// The conditions that definitions state, for each row of values of variables.
    fn def_rows(
        &self,
        at: usize,
        v: &Vec<Vec<Value>>,
        names: &Vec<String>,
        defs: &Vec<Definition>,
        next: bool,
        lo: &Vec<(String, SVal)>,
        acc0: Vec<FExpr>,
        k: usize
    ) -> (res: Result<Vec<FExpr>, CheckError>)
        ensures
            match (
                res,
                f_def_rows(
                    self.model(),
                    at as nat,
                    row_models(v@),
                    views(names@),
                    definition_models(defs@),
                    next,
                    sv_fields(lo@),
                    fe_models(acc0@),
                    build(self.model(), k as nat),
                    0
                )
            ) {
                (Ok(v), Ok(m)) => fe_models(v@) == m,
                (Err(e), Err(f)) => e.model() == f,
                _ => false,
            },
        decreases k, 5nat,
    {
        let ghost w = self.model();
        let ghost g = build(w, k as nat);
        let mut acc = acc0;
        let mut i: usize = 0;
        while i < v.len()
            invariant
                i <= v@.len(),
                w == self.model(),
                g == build(w, k as nat),
                f_def_rows(
                    w,
                    at as nat,
                    row_models(v@),
                    views(names@),
                    definition_models(defs@),
                    next,
                    sv_fields(lo@),
                    fe_models(acc@),
                    g,
                    i as int
                ) == f_def_rows(w, at as nat, row_models(v@), views(names@), definition_models(defs@), next, sv_fields(lo@), fe_models(acc0@), g, 0),
            decreases v.len() - i,
        {
            proof {
                reveal_with_fuel(f_def_rows, 1);
                assert(row_models(v@)[i as int] == models(v@[i as int]@));
            }
            let inner = add_row(lo, names, &v[i]);
            let more = match self.def_list(at, defs, next, &inner, acc, k) {
                Ok(x) => x,
                Err(e) => {
                    return Err(e);
                },
            };
            acc = more;
            i += 1;
            continue;

        }
        proof {
            reveal_with_fuel(f_def_rows, 1);
        }
        Ok(acc)
    }

    /// The conditions that definitions state.
    fn def_list(
        &self,
        at: usize,
        v: &Vec<Definition>,
        next: bool,
        lo: &Vec<(String, SVal)>,
        acc0: Vec<FExpr>,
        k: usize
    ) -> (res: Result<Vec<FExpr>, CheckError>)
        ensures
            match (
                res,
                f_def_list(
                    self.model(),
                    at as nat,
                    definition_models(v@),
                    next,
                    sv_fields(lo@),
                    fe_models(acc0@),
                    build(self.model(), k as nat),
                    0
                )
            ) {
                (Ok(v), Ok(m)) => fe_models(v@) == m,
                (Err(e), Err(f)) => e.model() == f,
                _ => false,
            },
        decreases k, 3nat,
    {
        let ghost w = self.model();
        let ghost g = build(w, k as nat);
        let mut acc = acc0;
        let mut i: usize = 0;
        while i < v.len()
            invariant
                i <= v@.len(),
                w == self.model(),
                g == build(w, k as nat),
                f_def_list(
                    w,
                    at as nat,
                    definition_models(v@),
                    next,
                    sv_fields(lo@),
                    fe_models(acc@),
                    g,
                    i as int
                ) == f_def_list(w, at as nat, definition_models(v@), next, sv_fields(lo@), fe_models(acc0@), g, 0),
            decreases v.len() - i,
        {
            proof {
                reveal_with_fuel(f_def_list, 1);
                assert(definition_models(v@)[i as int] == v@[i as int].model());
            }
            let c = match self.elab_definition(at, &v[i], next, lo, k) {
                Ok(x) => x,
                Err(e) => {
                    return Err(e);
                },
            };
            acc = add_fexpr(acc, c);
            i += 1;
            continue;

        }
        proof {
            reveal_with_fuel(f_def_list, 1);
        }
        Ok(acc)
    }

    /// The condition that a definition of one left side states.
    fn simple(
        &self,
        at: usize,
        s: &SimpleDefinition,
        next: bool,
        lo: &Vec<(String, SVal)>,
        k: usize
    ) -> (res: Result<FExpr, CheckError>)
        ensures
            match (
                res,
                f_simple(
                    self.model(),
                    at as nat,
                    s.model(),
                    next,
                    sv_fields(lo@),
                    build(self.model(), k as nat)
                )
            ) {
                (Ok(v), Ok(m)) => v.model() == m,
                (Err(e), Err(f)) => e.model() == f,
                _ => false,
            },
        decreases k, 12nat,
    {
        let ghost w = self.model();
        let ghost g = build(w, k as nat);
        proof {
            reveal(f_simple);
        }
        let ghost lm = s.lhs.model();
        match self.lhs(at, &s.lhs, lo, k) {
            Ok(l) => {
                return self.assign(at, l, &s.rhs, s.span, lo, k);
            },
            Err(_e) => {
                let (among, e) = rhs_parts(&s.rhs);
                proof {
                    rhs_expr(*e);
                    rhs_selection(*e);
                }
                return self.symbolic_lhs(at, &s.lhs, among, e, s.span, next, lo, k);
            },
        }

    }

    /// The condition that a left side has the value, or one of the values, of a right side.
    fn assign(
        &self,
        at: usize,
        l: SVal,
        r: &Rhs,
        span: Span,
        lo: &Vec<(String, SVal)>,
        k: usize
    ) -> (res: Result<FExpr, CheckError>)
        ensures
            match (
                res,
                f_assign(
                    self.model(),
                    at as nat,
                    l.model(),
                    r.model(),
                    span,
                    sv_fields(lo@),
                    build(self.model(), k as nat)
                )
            ) {
                (Ok(v), Ok(m)) => v.model() == m,
                (Err(e), Err(f)) => e.model() == f,
                _ => false,
            },
        decreases k, 6nat,
    {
        let ghost w = self.model();
        let ghost g = build(w, k as nat);
        proof {
            reveal(f_assign);
        }
        let (among, e) = rhs_parts(r);
        proof {
            rhs_expr(*e);
            rhs_selection(*e);
        }
        if among {
            self.assign_among(at, l, e, span, lo, k)
        } else {
            self.assign_value(at, l, e, span, lo, k)
        }
    }

    /// The condition that a left side has a value.
    fn assign_value(
        &self,
        at: usize,
        l: SVal,
        e: &Expr,
        span: Span,
        lo: &Vec<(String, SVal)>,
        k: usize
    ) -> (res: Result<FExpr, CheckError>)
        ensures
            match (
                res,
                f_assign_value(
                    self.model(),
                    at as nat,
                    l.model(),
                    e.model(),
                    span,
                    sv_fields(lo@),
                    build(self.model(), k as nat)
                )
            ) {
                (Ok(v), Ok(m)) => v.model() == m,
                (Err(e), Err(f)) => e.model() == f,
                _ => false,
            },
        decreases k, 4nat,
    {
        let ghost w = self.model();
        let ghost g = build(w, k as nat);
        proof {
            reveal(f_assign_value);
        }
        let v = match self.eval(at, e, lo, DEPTH) {
            Ok(x) => x,
            Err(e) => {
                return Err(e);
            },
        };
        let c = match equal_svals(&l, &v) {
            Some(x) => x,
            None => {
                return Err(self.fault(at, span, own("values that cannot be compared")));
            },
        };
        return Ok(c);

    }

    /// The condition that a left side has one of the values of a set.
    fn assign_among(
        &self,
        at: usize,
        l: SVal,
        e: &Expr,
        span: Span,
        lo: &Vec<(String, SVal)>,
        k: usize
    ) -> (res: Result<FExpr, CheckError>)
        ensures
            match (
                res,
                f_assign_among(
                    self.model(),
                    at as nat,
                    l.model(),
                    e.model(),
                    span,
                    sv_fields(lo@),
                    build(self.model(), k as nat)
                )
            ) {
                (Ok(v), Ok(m)) => v.model() == m,
                (Err(e), Err(f)) => e.model() == f,
                _ => false,
            },
        decreases k, 4nat,
    {
        let ghost w = self.model();
        let ghost g = build(w, k as nat);
        proof {
            reveal(f_assign_among);
        }
        let v = match self.eval(at, e, lo, DEPTH) {
            Ok(x) => x,
            Err(e) => {
                return Err(e);
            },
        };
        let one = one_sval(l);
        let z = match self.apply(at, &v, &one, span, DEPTH) {
            Ok(x) => x,
            Err(e) => {
                return Err(e);
            },
        };
        let c = match as_condition(&z) {
            Some(x) => x,
            None => {
                return Err(self.fault(at, span, own("boolean expression expected")));
            },
        };
        return Ok(c);

    }

    /// The part of a state variable that a left side with fixed indices speaks of.
    fn lhs(&self, at: usize, l: &Lhs, lo: &Vec<(String, SVal)>, k: usize) -> (res: Result<SVal, CheckError>)
        ensures
            match (
                res,
                f_lhs(self.model(), at as nat, l.model(), sv_fields(lo@), build(self.model(), k as nat))
            ) {
                (Ok(v), Ok(m)) => v.model() == m,
                (Err(e), Err(f)) => e.model() == f,
                _ => false,
            },
        decreases k, 7nat,
    {
        let ghost w = self.model();
        let ghost g = build(w, k as nat);
        proof {
            reveal(f_lhs);
        }
        let ghost bm = l.base.model();
        let v = match find_local(lo, &make_head(l)) {
            Some(x) => x,
            None => {
                return Err(self.fault(at, l.span, text3("Undeclared state variable \"", l.base.name.as_str(), "\".")));
            },
        };
        return self.lhs_steps(at, &l.accesses, l.span, lo, v, k);

    }

    /// The part that accesses with fixed indices lead to.
    fn lhs_steps(
        &self,
        at: usize,
        v: &Vec<Access>,
        span: Span,
        lo: &Vec<(String, SVal)>,
        acc0: SVal,
        k: usize
    ) -> (res: Result<SVal, CheckError>)
        ensures
            match (
                res,
                f_lhs_steps(
                    self.model(),
                    at as nat,
                    access_models(v@),
                    span,
                    sv_fields(lo@),
                    acc0.model(),
                    build(self.model(), k as nat),
                    0
                )
            ) {
                (Ok(v), Ok(m)) => v.model() == m,
                (Err(e), Err(f)) => e.model() == f,
                _ => false,
            },
        decreases k, 5nat,
    {
        let ghost w = self.model();
        let ghost g = build(w, k as nat);
        let mut acc = acc0;
        let mut i: usize = 0;
        while i < v.len()
            invariant
                i <= v@.len(),
                w == self.model(),
                g == build(w, k as nat),
                f_lhs_steps(
                    w,
                    at as nat,
                    access_models(v@),
                    span,
                    sv_fields(lo@),
                    acc.model(),
                    g,
                    i as int
                ) == f_lhs_steps(w, at as nat, access_models(v@), span, sv_fields(lo@), acc0.model(), g, 0),
            decreases v.len() - i,
        {
            proof {
                reveal_with_fuel(f_lhs_steps, 1);
                assert(access_models(v@)[i as int] == v@[i as int].model());
            }
            let t = match self.lhs_step(at, &v[i], span, lo, &acc, k) {
                Ok(x) => x,
                Err(e) => {
                    return Err(e);
                },
            };
            acc = t;
            i += 1;
            continue;

        }
        proof {
            reveal_with_fuel(f_lhs_steps, 1);
        }
        Ok(acc)
    }

    /// The part that one access with a fixed index leads to.
    fn lhs_step(
        &self,
        at: usize,
        a: &Access,
        span: Span,
        lo: &Vec<(String, SVal)>,
        c: &SVal,
        k: usize
    ) -> (res: Result<SVal, CheckError>)
        ensures
            match (
                res,
                f_lhs_step(
                    self.model(),
                    at as nat,
                    a.model(),
                    span,
                    sv_fields(lo@),
                    c.model(),
                    build(self.model(), k as nat)
                )
            ) {
                (Ok(v), Ok(m)) => v.model() == m,
                (Err(e), Err(f)) => e.model() == f,
                _ => false,
            },
        decreases k, 3nat,
    {
        let ghost w = self.model();
        let ghost g = build(w, k as nat);
        proof {
            reveal(f_lhs_step);
        }
        match a {
            Access::Array(ie) => {
                let iv = match self.eval(at, ie, lo, DEPTH) {
                    Ok(x) => x,
                    Err(e) => {
                        return Err(e);
                    },
                };
                match find_fixed_element(c, &iv) {
                    Some(z) => {
                        return Ok(z);
                    },
                    None => {
                        return Err(self.fault(at, span, own("Assignment index must be a constant.")));
                    },
                }
            },
            Access::Record(f) => {
                match find_record_part(c, &f.name) {
                    Some(z) => {
                        return Ok(z);
                    },
                    None => {
                        return Err(self.fault(at, f.span, text3("Unknown record field \"", f.name.as_str(), "\".")));
                    },
                }
            },
            Access::Tuple(n) => {
                match find_tuple_part(c, *n) {
                    Some(z) => {
                        return Ok(z);
                    },
                    None => {
                        return Err(self.fault(at, span, own("Tuple index out of bounds.")));
                    },
                }
            },
            Access::Args(_e) => {
                return Err(self.fault(at, span, own("Function-application LHS is not supported.")));
            },
        }

    }

    /// The condition that a definition states whose left side has an index that depends on the state: in a transition the other parts keep their values.
    fn symbolic_lhs(
        &self,
        at: usize,
        l: &Lhs,
        among: bool,
        e: &Expr,
        span: Span,
        next: bool,
        lo: &Vec<(String, SVal)>,
        k: usize
    ) -> (res: Result<FExpr, CheckError>)
        ensures
            match (
                res,
                f_symbolic_lhs(
                    self.model(),
                    at as nat,
                    l.model(),
                    among,
                    e.model(),
                    span,
                    next,
                    sv_fields(lo@),
                    build(self.model(), k as nat)
                )
            ) {
                (Ok(v), Ok(m)) => v.model() == m,
                (Err(e), Err(f)) => e.model() == f,
                _ => false,
            },
        decreases k, 8nat,
    {
        let ghost w = self.model();
        let ghost g = build(w, k as nat);
        proof {
            reveal(f_symbolic_lhs);
        }
        let ghost bm = l.base.model();
        match find_local(lo, &l.base.name) {
            Some(cur) => {
                if among {
                    Err(
                        self.fault(
                            at,
                            span,
                            own("IN selection with a state-dependent index is not supported."),
                        ),
                    )
                } else {
                    self.symbolic_value(at, &cur, l, e, span, next, lo, k)
                }
            },
            None => Err(
                self.fault(
                    at,
                    l.span,
                    text3("Undeclared state variable \"", l.base.name.as_str(), "\"."),
                ),
            ),
        }
    }

    /// The condition that a part of the state variable `cur` has the value of an expression.
    fn symbolic_value(
        &self,
        at: usize,
        cur: &SVal,
        l: &Lhs,
        e: &Expr,
        span: Span,
        next: bool,
        lo: &Vec<(String, SVal)>,
        k: usize,
    ) -> (res: Result<FExpr, CheckError>)
        ensures
            match (res, f_symbolic_value(
                self.model(),
                at as nat,
                cur.model(),
                l.model(),
                e.model(),
                span,
                next,
                sv_fields(lo@),
                build(self.model(), k as nat),
            )) {
                (Ok(v), Ok(m)) => v.model() == m,
                (Err(e), Err(f)) => e.model() == f,
                _ => false,
            },
        decreases k, 7nat,
    {
        proof {
            reveal(f_symbolic_value);
        }
        let ghost bm = l.base.model();
        match self.eval(at, e, lo, DEPTH) {
            Err(f) => Err(f),
            Ok(v) => match find_local(lo, &make_head(l)) {
                Some(base) => self.symbolic_part(at, cur, base, &v, &l.accesses, span, l.next && next, lo, k),
                None => Err(
                    self.fault(at, l.span, text3("Undeclared state variable \"", l.base.name.as_str(), "\".")),
                ),
            },
        }
    }

    /// The condition that a part of a state variable has a value.
    fn symbolic_part(
        &self,
        at: usize,
        cur: &SVal,
        base: SVal,
        v: &SVal,
        acs: &Vec<Access>,
        span: Span,
        replaces: bool,
        lo: &Vec<(String, SVal)>,
        k: usize,
    ) -> (res: Result<FExpr, CheckError>)
        ensures
            match (res, f_symbolic_part(
                self.model(),
                at as nat,
                cur.model(),
                base.model(),
                v.model(),
                access_models(acs@),
                span,
                replaces,
                sv_fields(lo@),
                build(self.model(), k as nat),
            )) {
                (Ok(v), Ok(m)) => v.model() == m,
                (Err(e), Err(f)) => e.model() == f,
                _ => false,
            },
        decreases k, 6nat,
    {
        proof {
            reveal(f_symbolic_part);
        }
        if replaces {
            match self.update(at, cur, acs, 0, v, span, lo, DEPTH) {
                Err(f) => Err(f),
                Ok(u) => self.compared(at, &base, &u, span),
            }
        } else {
            match self.select_steps(at, acs, span, lo, base, k) {
                Err(f) => Err(f),
                Ok(part) => self.compared(at, &part, v, span),
            }
        }
    }

    /// The condition that two values are equal.
    fn compared(&self, at: usize, a: &SVal, b: &SVal, span: Span) -> (res: Result<FExpr, CheckError>)
        ensures
            match (res, f_compared(self.model(), at as nat, a.model(), b.model(), span)) {
                (Ok(v), Ok(m)) => v.model() == m,
                (Err(e), Err(f)) => e.model() == f,
                _ => false,
            },
    {
        proof {
            reveal(f_compared);
        }
        match equal_svals(a, b) {
            Some(c) => Ok(c),
            None => Err(self.fault(at, span, own("values that cannot be compared"))),
        }
    }

    /// The part that accesses lead to.
    fn select_steps(
        &self,
        at: usize,
        v: &Vec<Access>,
        span: Span,
        lo: &Vec<(String, SVal)>,
        acc0: SVal,
        k: usize
    ) -> (res: Result<SVal, CheckError>)
        ensures
            match (
                res,
                f_select_steps(
                    self.model(),
                    at as nat,
                    access_models(v@),
                    span,
                    sv_fields(lo@),
                    acc0.model(),
                    build(self.model(), k as nat),
                    0
                )
            ) {
                (Ok(v), Ok(m)) => v.model() == m,
                (Err(e), Err(f)) => e.model() == f,
                _ => false,
            },
        decreases k, 5nat,
    {
        let ghost w = self.model();
        let ghost g = build(w, k as nat);
        let mut acc = acc0;
        let mut i: usize = 0;
        while i < v.len()
            invariant
                i <= v@.len(),
                w == self.model(),
                g == build(w, k as nat),
                f_select_steps(
                    w,
                    at as nat,
                    access_models(v@),
                    span,
                    sv_fields(lo@),
                    acc.model(),
                    g,
                    i as int
                ) == f_select_steps(w, at as nat, access_models(v@), span, sv_fields(lo@), acc0.model(), g, 0),
            decreases v.len() - i,
        {
            proof {
                reveal_with_fuel(f_select_steps, 1);
                assert(access_models(v@)[i as int] == v@[i as int].model());
            }
            let t = match self.select_step(at, &v[i], span, lo, &acc, k) {
                Ok(x) => x,
                Err(e) => {
                    return Err(e);
                },
            };
            acc = t;
            i += 1;
            continue;

        }
        proof {
            reveal_with_fuel(f_select_steps, 1);
        }
        Ok(acc)
    }

    /// The part that one access leads to.
    fn select_step(
        &self,
        at: usize,
        a: &Access,
        span: Span,
        lo: &Vec<(String, SVal)>,
        c: &SVal,
        k: usize
    ) -> (res: Result<SVal, CheckError>)
        ensures
            match (
                res,
                f_select_step(
                    self.model(),
                    at as nat,
                    a.model(),
                    span,
                    sv_fields(lo@),
                    c.model(),
                    build(self.model(), k as nat)
                )
            ) {
                (Ok(v), Ok(m)) => v.model() == m,
                (Err(e), Err(f)) => e.model() == f,
                _ => false,
            },
        decreases k, 3nat,
    {
        let ghost w = self.model();
        let ghost g = build(w, k as nat);
        proof {
            reveal(f_select_step);
        }
        match a {
            Access::Array(ie) => {
                let iv = match self.eval(at, ie, lo, DEPTH) {
                    Ok(x) => x,
                    Err(e) => {
                        return Err(e);
                    },
                };
                return self.select(at, c, iv, span, DEPTH);
            },
            Access::Record(f) => {
                match find_record_part(c, &f.name) {
                    Some(z) => {
                        return Ok(z);
                    },
                    None => {
                        return Err(self.fault(at, f.span, text3("Unknown record field \"", f.name.as_str(), "\".")));
                    },
                }
            },
            Access::Tuple(n) => {
                match find_tuple_part(c, *n) {
                    Some(z) => {
                        return Ok(z);
                    },
                    None => {
                        return Err(self.fault(at, span, own("Tuple index out of bounds.")));
                    },
                }
            },
            Access::Args(_e) => {
                return Err(self.fault(at, span, own("Invalid LHS access.")));
            },
        }

    }

    /// The leaves that a definition defines.
    fn heads_of(
        &self,
        at: usize,
        x: &Definition,
        lo: &Vec<(String, SVal)>,
        acc: Vec<LeafId>,
        k: usize
    ) -> (res: Result<Vec<LeafId>, CheckError>)
        ensures
            match (
                res,
                f_heads_of(
                    self.model(),
                    at as nat,
                    x.model(),
                    sv_fields(lo@),
                    acc@,
                    build(self.model(), k as nat)
                )
            ) {
                (Ok(v), Ok(m)) => v@ == m,
                (Err(e), Err(f)) => e.model() == f,
                _ => false,
            },
        decreases k, 14nat,
    {
        let ghost w = self.model();
        let ghost g = build(w, k as nat);
        proof {
            reveal(f_heads_of);
        }
        match x {
            Definition::Forall(ds, defs) => {
                let names = list_all_names(ds);
                let rows = match self.expand_bindings(at, ds, lo, k) {
                    Ok(x) => x,
                    Err(e) => {
                        return Err(e);
                    },
                };
                return self.head_rows(at, &rows, &names, defs, lo, acc, k);
            },
            Definition::Simple(s) => {
                let ghost sm = s.model();
                self.head_of(at, &s.lhs, lo, acc, k)
            },
        }
    }

    /// The leaves that a left side speaks of.
    fn head_of(&self, at: usize, l: &Lhs, lo: &Vec<(String, SVal)>, acc: Vec<LeafId>, k: usize) -> (res: Result<
        Vec<LeafId>,
        CheckError,
    >)
        ensures
            match (
                res,
                f_head_of(
                    self.model(),
                    at as nat,
                    l.model(),
                    sv_fields(lo@),
                    acc@,
                    build(self.model(), k as nat),
                ),
            ) {
                (Ok(v), Ok(m)) => v@ == m,
                (Err(e), Err(f)) => e.model() == f,
                _ => false,
            },
        decreases k, 12nat,
    {
        proof {
            reveal(f_head_of);
        }
        match self.lhs(at, l, lo, k) {
            Ok(v) => Ok(skel_leaves(&v, acc)),
            Err(_e) => match find_local(lo, &make_head(l)) {
                Some(v) => Ok(skel_leaves(&v, acc)),
                None => Ok(acc),
            },
        }
    }

    /// The leaves that definitions define, for each row of values of variables.
    fn head_rows(
        &self,
        at: usize,
        v: &Vec<Vec<Value>>,
        names: &Vec<String>,
        defs: &Vec<Definition>,
        lo: &Vec<(String, SVal)>,
        acc0: Vec<LeafId>,
        k: usize
    ) -> (res: Result<Vec<LeafId>, CheckError>)
        ensures
            match (
                res,
                f_head_rows(
                    self.model(),
                    at as nat,
                    row_models(v@),
                    views(names@),
                    definition_models(defs@),
                    sv_fields(lo@),
                    acc0@,
                    build(self.model(), k as nat),
                    0
                )
            ) {
                (Ok(v), Ok(m)) => v@ == m,
                (Err(e), Err(f)) => e.model() == f,
                _ => false,
            },
        decreases k, 5nat,
    {
        let ghost w = self.model();
        let ghost g = build(w, k as nat);
        let mut acc = acc0;
        let mut i: usize = 0;
        while i < v.len()
            invariant
                i <= v@.len(),
                w == self.model(),
                g == build(w, k as nat),
                f_head_rows(
                    w,
                    at as nat,
                    row_models(v@),
                    views(names@),
                    definition_models(defs@),
                    sv_fields(lo@),
                    acc@,
                    g,
                    i as int
                ) == f_head_rows(w, at as nat, row_models(v@), views(names@), definition_models(defs@), sv_fields(lo@), acc0@, g, 0),
            decreases v.len() - i,
        {
            proof {
                reveal_with_fuel(f_head_rows, 1);
                assert(row_models(v@)[i as int] == models(v@[i as int]@));
            }
            let inner = add_row(lo, names, &v[i]);
            let more = match self.head_list(at, defs, &inner, acc, k) {
                Ok(x) => x,
                Err(e) => {
                    return Err(e);
                },
            };
            acc = more;
            i += 1;
            continue;

        }
        proof {
            reveal_with_fuel(f_head_rows, 1);
        }
        Ok(acc)
    }

    /// The leaves that definitions define.
    fn head_list(
        &self,
        at: usize,
        v: &Vec<Definition>,
        lo: &Vec<(String, SVal)>,
        acc0: Vec<LeafId>,
        k: usize
    ) -> (res: Result<Vec<LeafId>, CheckError>)
        ensures
            match (
                res,
                f_head_list(
                    self.model(),
                    at as nat,
                    definition_models(v@),
                    sv_fields(lo@),
                    acc0@,
                    build(self.model(), k as nat),
                    0
                )
            ) {
                (Ok(v), Ok(m)) => v@ == m,
                (Err(e), Err(f)) => e.model() == f,
                _ => false,
            },
        decreases k, 3nat,
    {
        let ghost w = self.model();
        let ghost g = build(w, k as nat);
        let mut acc = acc0;
        let mut i: usize = 0;
        while i < v.len()
            invariant
                i <= v@.len(),
                w == self.model(),
                g == build(w, k as nat),
                f_head_list(
                    w,
                    at as nat,
                    definition_models(v@),
                    sv_fields(lo@),
                    acc@,
                    g,
                    i as int
                ) == f_head_list(w, at as nat, definition_models(v@), sv_fields(lo@), acc0@, g, 0),
            decreases v.len() - i,
        {
            proof {
                reveal_with_fuel(f_head_list, 1);
                assert(definition_models(v@)[i as int] == v@[i as int].model());
            }
            let more = match self.definition_lhs_leaves(at, &v[i], lo, acc, k) {
                Ok(x) => x,
                Err(e) => {
                    return Err(e);
                },
            };
            acc = more;
            i += 1;
            continue;

        }
        proof {
            reveal_with_fuel(f_head_list, 1);
        }
        Ok(acc)
    }

    /// The flat commands of a command that is no `ELSE`.
    fn cmd_body(
        &self,
        at: usize,
        x: &SomeCommand,
        next: bool,
        lo: &Vec<(String, SVal)>,
        prov: &String,
        acc: Vec<FlatCmd>,
        k: usize
    ) -> (res: Result<Vec<FlatCmd>, CheckError>)
        ensures
            match (
                res,
                f_cmd_body(
                    self.model(),
                    at as nat,
                    x.model(),
                    next,
                    sv_fields(lo@),
                    cmd_models(acc@),
                    build(self.model(), k as nat)
                )
            ) {
                (Ok(v), Ok(m)) => cmd_models(v@) == m,
                (Err(e), Err(f)) => e.model() == f,
                _ => false,
            },
        decreases k, 12nat,
    {
        let ghost w = self.model();
        let ghost g = build(w, k as nat);
        proof {
            reveal(f_cmd_body);
        }
        match x {
            SomeCommand::Multi(ds, c, _s) => {
                let names = list_all_names(ds);
                let rows = match self.expand_bindings(at, ds, lo, k) {
                    Ok(x) => x,
                    Err(e) => {
                        return Err(e);
                    },
                };
                return self.cmd_rows(at, &rows, &names, c, next, lo, prov, acc, k);
            },
            SomeCommand::Guarded(c) => {
                let ghost cm = c.model();
                return self.guarded(at, c, next, lo, prov, acc, k);
            },
        }

    }

    /// The flat commands of a command, for each row of values of variables.
    fn cmd_rows(
        &self,
        at: usize,
        v: &Vec<Vec<Value>>,
        names: &Vec<String>,
        c: &SomeCommand,
        next: bool,
        lo: &Vec<(String, SVal)>,
        prov: &String,
        acc0: Vec<FlatCmd>,
        k: usize
    ) -> (res: Result<Vec<FlatCmd>, CheckError>)
        ensures
            match (
                res,
                f_cmd_rows(
                    self.model(),
                    at as nat,
                    row_models(v@),
                    views(names@),
                    c.model(),
                    next,
                    sv_fields(lo@),
                    cmd_models(acc0@),
                    build(self.model(), k as nat),
                    0
                )
            ) {
                (Ok(v), Ok(m)) => cmd_models(v@) == m,
                (Err(e), Err(f)) => e.model() == f,
                _ => false,
            },
        decreases k, 3nat,
    {
        let ghost w = self.model();
        let ghost g = build(w, k as nat);
        let mut acc = acc0;
        let mut i: usize = 0;
        while i < v.len()
            invariant
                i <= v@.len(),
                w == self.model(),
                g == build(w, k as nat),
                f_cmd_rows(
                    w,
                    at as nat,
                    row_models(v@),
                    views(names@),
                    c.model(),
                    next,
                    sv_fields(lo@),
                    cmd_models(acc@),
                    g,
                    i as int
                ) == f_cmd_rows(w, at as nat, row_models(v@), views(names@), c.model(), next, sv_fields(lo@), cmd_models(acc0@), g, 0),
            decreases v.len() - i,
        {
            proof {
                reveal_with_fuel(f_cmd_rows, 1);
                assert(row_models(v@)[i as int] == models(v@[i as int]@));
            }
            let inner = add_row(lo, names, &v[i]);
            let more = match self.expand_command(at, c, next, &inner, prov, acc, k) {
                Ok(x) => x,
                Err(e) => {
                    return Err(e);
                },
            };
            acc = more;
            i += 1;
            continue;

        }
        proof {
            reveal_with_fuel(f_cmd_rows, 1);
        }
        Ok(acc)
    }

    /// The condition that a guard states.
    fn guard_of(
        &self,
        at: usize,
        e: &Expr,
        span: Span,
        lo: &Vec<(String, SVal)>,
        k: usize
    ) -> (res: Result<FExpr, CheckError>)
        ensures
            match (
                res,
                f_guard_of(
                    self.model(),
                    at as nat,
                    e.model(),
                    span,
                    sv_fields(lo@),
                    build(self.model(), k as nat)
                )
            ) {
                (Ok(v), Ok(m)) => v.model() == m,
                (Err(e), Err(f)) => e.model() == f,
                _ => false,
            },
        decreases k, 3nat,
    {
        let ghost w = self.model();
        let ghost g = build(w, k as nat);
        proof {
            reveal(f_guard_of);
        }
        let v = match self.eval(at, e, lo, DEPTH) {
            Ok(x) => x,
            Err(e) => {
                return Err(e);
            },
        };
        let q = match as_condition(&v) {
            Some(x) => x,
            None => {
                return Err(self.fault(at, span, own("boolean expression expected")));
            },
        };
        return Ok(q);

    }

    /// The condition that the assignments of a command state.
    fn effect(
        &self,
        at: usize,
        ds: &Vec<Definition>,
        next: bool,
        lo: &Vec<(String, SVal)>,
        k: usize
    ) -> (res: Result<FExpr, CheckError>)
        ensures
            match (
                res,
                f_effect(
                    self.model(),
                    at as nat,
                    definition_models(ds@),
                    next,
                    sv_fields(lo@),
                    build(self.model(), k as nat)
                )
            ) {
                (Ok(v), Ok(m)) => v.model() == m,
                (Err(e), Err(f)) => e.model() == f,
                _ => false,
            },
        decreases k, 5nat,
    {
        let ghost w = self.model();
        let ghost g = build(w, k as nat);
        proof {
            reveal(f_effect);
        }
        let none = Vec::new();
        proof {
            assert(fe_models(none@) =~= Seq::empty());
        }
        let cs = match self.def_list(at, ds, next, lo, none, k) {
            Ok(x) => x,
            Err(e) => {
                return Err(e);
            },
        };
        return Ok(FExpr::and(cs));

    }

    /// The flat command of a guarded command that is no `ELSE`.
    fn guarded(
        &self,
        at: usize,
        c: &GuardedCommand,
        next: bool,
        lo: &Vec<(String, SVal)>,
        prov: &String,
        acc: Vec<FlatCmd>,
        k: usize
    ) -> (res: Result<Vec<FlatCmd>, CheckError>)
        ensures
            match (
                res,
                f_guarded(
                    self.model(),
                    at as nat,
                    c.model(),
                    next,
                    sv_fields(lo@),
                    cmd_models(acc@),
                    build(self.model(), k as nat)
                )
            ) {
                (Ok(v), Ok(m)) => cmd_models(v@) == m,
                (Err(e), Err(f)) => e.model() == f,
                _ => false,
            },
        decreases k, 9nat,
    {
        let ghost w = self.model();
        let ghost g = build(w, k as nat);
        proof {
            reveal(f_guarded);
        }
        let label = label_of(c);
        let origin = self.provenance(at, prov, c);
        return self.guarded_opt(at, &c.guard, c.span, &c.assignments, next, lo, label, origin, acc, k);

    }

    /// The flat command of assignments and a guard, where there is one.
    fn guarded_opt(
        &self,
        at: usize,
        ge: &Option<Expr>,
        span: Span,
        ds: &Vec<Definition>,
        next: bool,
        lo: &Vec<(String, SVal)>,
        label: Option<String>,
        origin: String,
        acc: Vec<FlatCmd>,
        k: usize
    ) -> (res: Result<Vec<FlatCmd>, CheckError>)
        ensures
            match (
                res,
                f_guarded_opt(
                    self.model(),
                    at as nat,
                    opt_expr(*ge),
                    span,
                    definition_models(ds@),
                    next,
                    sv_fields(lo@),
                    opt_text(label),
                    cmd_models(acc@),
                    build(self.model(), k as nat)
                )
            ) {
                (Ok(v), Ok(m)) => cmd_models(v@) == m,
                (Err(e), Err(f)) => e.model() == f,
                _ => false,
            },
        decreases k, 8nat,
    {
        let ghost w = self.model();
        let ghost g = build(w, k as nat);
        proof {
            reveal(f_guarded_opt);
        }
        match ge {
            None => {
                return Ok(acc);
            },
            Some(e) => {
                return self.guarded_by(at, e, span, ds, next, lo, label, origin, acc, k);
            },
        }

    }

    /// The flat command of a guard and assignments.
    fn guarded_by(
        &self,
        at: usize,
        e: &Expr,
        span: Span,
        ds: &Vec<Definition>,
        next: bool,
        lo: &Vec<(String, SVal)>,
        label: Option<String>,
        origin: String,
        acc: Vec<FlatCmd>,
        k: usize
    ) -> (res: Result<Vec<FlatCmd>, CheckError>)
        ensures
            match (
                res,
                f_guarded_by(
                    self.model(),
                    at as nat,
                    e.model(),
                    span,
                    definition_models(ds@),
                    next,
                    sv_fields(lo@),
                    opt_text(label),
                    cmd_models(acc@),
                    build(self.model(), k as nat)
                )
            ) {
                (Ok(v), Ok(m)) => cmd_models(v@) == m,
                (Err(e), Err(f)) => e.model() == f,
                _ => false,
            },
        decreases k, 7nat,
    {
        let ghost w = self.model();
        let ghost g = build(w, k as nat);
        proof {
            reveal(f_guarded_by);
        }
        let q = match self.guard_of(at, e, span, lo, k) {
            Ok(x) => x,
            Err(e) => {
                return Err(e);
            },
        };
        let d = match self.effect(at, ds, next, lo, k) {
            Ok(x) => x,
            Err(e) => {
                return Err(e);
            },
        };
        return Ok(add_cmd(acc, label, origin, q, d));

    }

    /// The flat commands of `ELSE` commands.
    fn else_cmds(
        &self,
        at: usize,
        v: &Vec<SomeCommand>,
        next: bool,
        lo: &Vec<(String, SVal)>,
        prov: &String,
        neg: &FExpr,
        acc0: Vec<FlatCmd>,
        k: usize
    ) -> (res: Result<Vec<FlatCmd>, CheckError>)
        ensures
            match (
                res,
                f_else_cmds(
                    self.model(),
                    at as nat,
                    some_command_models(v@),
                    next,
                    sv_fields(lo@),
                    neg.model(),
                    cmd_models(acc0@),
                    build(self.model(), k as nat),
                    0
                )
            ) {
                (Ok(v), Ok(m)) => cmd_models(v@) == m,
                (Err(e), Err(f)) => e.model() == f,
                _ => false,
            },
        decreases k, 9nat,
    {
        let ghost w = self.model();
        let ghost g = build(w, k as nat);
        let mut acc = acc0;
        let mut i: usize = 0;
        while i < v.len()
            invariant
                i <= v@.len(),
                w == self.model(),
                g == build(w, k as nat),
                f_else_cmds(
                    w,
                    at as nat,
                    some_command_models(v@),
                    next,
                    sv_fields(lo@),
                    neg.model(),
                    cmd_models(acc@),
                    g,
                    i as int
                ) == f_else_cmds(w, at as nat, some_command_models(v@), next, sv_fields(lo@), neg.model(), cmd_models(acc0@), g, 0),
            decreases v.len() - i,
        {
            proof {
                reveal_with_fuel(f_else_cmds, 1);
                assert(some_command_models(v@)[i as int] == v@[i as int].model());
            }
            match &v[i] {
                SomeCommand::Guarded(c) => {
                    let ghost cm = c.model();
                    let more = match self.else_cmd(at, c, next, lo, prov, neg, acc, k) {
                        Ok(x) => x,
                        Err(e) => {
                            return Err(e);
                        },
                    };
                    acc = more;
                    i += 1;
                    continue;
                },
                _ => {
                    i += 1;
                    continue;
                },
            }

        }
        proof {
            reveal_with_fuel(f_else_cmds, 1);
        }
        Ok(acc)
    }

    /// The flat command of an `ELSE` command.
    fn else_cmd(
        &self,
        at: usize,
        c: &GuardedCommand,
        next: bool,
        lo: &Vec<(String, SVal)>,
        prov: &String,
        neg: &FExpr,
        acc: Vec<FlatCmd>,
        k: usize
    ) -> (res: Result<Vec<FlatCmd>, CheckError>)
        ensures
            match (
                res,
                f_else_cmd(
                    self.model(),
                    at as nat,
                    c.model(),
                    next,
                    sv_fields(lo@),
                    neg.model(),
                    cmd_models(acc@),
                    build(self.model(), k as nat)
                )
            ) {
                (Ok(v), Ok(m)) => cmd_models(v@) == m,
                (Err(e), Err(f)) => e.model() == f,
                _ => false,
            },
        decreases k, 7nat,
    {
        let ghost w = self.model();
        let ghost g = build(w, k as nat);
        proof {
            reveal(f_else_cmd);
        }
        let label = label_of(c);
        let origin = self.provenance(at, prov, c);
        self.else_opt(at, &c.guard, &c.assignments, next, lo, label, origin, neg, acc, k)
    }

    /// The flat command of assignments under a given guard, where there is no guard of their own.
    fn else_opt(
        &self,
        at: usize,
        ge: &Option<Expr>,
        ds: &Vec<Definition>,
        next: bool,
        lo: &Vec<(String, SVal)>,
        label: Option<String>,
        origin: String,
        neg: &FExpr,
        acc: Vec<FlatCmd>,
        k: usize
    ) -> (res: Result<Vec<FlatCmd>, CheckError>)
        ensures
            match (
                res,
                f_else_opt(
                    self.model(),
                    at as nat,
                    opt_expr(*ge),
                    definition_models(ds@),
                    next,
                    sv_fields(lo@),
                    opt_text(label),
                    neg.model(),
                    cmd_models(acc@),
                    build(self.model(), k as nat)
                )
            ) {
                (Ok(v), Ok(m)) => cmd_models(v@) == m,
                (Err(e), Err(f)) => e.model() == f,
                _ => false,
            },
        decreases k, 6nat,
    {
        proof {
            reveal(f_else_opt);
        }
        match ge {
            Some(_e) => Ok(acc),
            None => match self.effect(at, ds, next, lo, k) {
                Err(e) => Err(e),
                Ok(d) => Ok(add_cmd(acc, label, origin, neg.clone(), d)),
            },
        }
    }

    /// The flat commands of commands.
    fn cmd_list(
        &self,
        at: usize,
        v: &Vec<SomeCommand>,
        next: bool,
        lo: &Vec<(String, SVal)>,
        prov: &String,
        acc0: Vec<FlatCmd>,
        k: usize
    ) -> (res: Result<Vec<FlatCmd>, CheckError>)
        ensures
            match (
                res,
                f_cmd_list(
                    self.model(),
                    at as nat,
                    some_command_models(v@),
                    next,
                    sv_fields(lo@),
                    cmd_models(acc0@),
                    build(self.model(), k as nat),
                    0
                )
            ) {
                (Ok(v), Ok(m)) => cmd_models(v@) == m,
                (Err(e), Err(f)) => e.model() == f,
                _ => false,
            },
        decreases k, 3nat,
    {
        let ghost w = self.model();
        let ghost g = build(w, k as nat);
        let mut acc = acc0;
        let mut i: usize = 0;
        while i < v.len()
            invariant
                i <= v@.len(),
                w == self.model(),
                g == build(w, k as nat),
                f_cmd_list(
                    w,
                    at as nat,
                    some_command_models(v@),
                    next,
                    sv_fields(lo@),
                    cmd_models(acc@),
                    g,
                    i as int
                ) == f_cmd_list(w, at as nat, some_command_models(v@), next, sv_fields(lo@), cmd_models(acc0@), g, 0),
            decreases v.len() - i,
        {
            proof {
                reveal_with_fuel(f_cmd_list, 1);
                assert(some_command_models(v@)[i as int] == v@[i as int].model());
            }
            let more = match self.expand_command(at, &v[i], next, lo, prov, acc, k) {
                Ok(x) => x,
                Err(e) => {
                    return Err(e);
                },
            };
            acc = more;
            i += 1;
            continue;

        }
        proof {
            reveal_with_fuel(f_cmd_list, 1);
        }
        Ok(acc)
    }

    /// The flat commands of a choice; an `ELSE` command is guarded by the negation of the other guards.
    fn commands(
        &self,
        at: usize,
        cs: &Vec<SomeCommand>,
        next: bool,
        lo: &Vec<(String, SVal)>,
        prov: &String,
        k: usize
    ) -> (res: Result<Vec<FlatCmd>, CheckError>)
        ensures
            match (
                res,
                f_commands(
                    self.model(),
                    at as nat,
                    some_command_models(cs@),
                    next,
                    sv_fields(lo@),
                    build(self.model(), k as nat)
                )
            ) {
                (Ok(v), Ok(m)) => cmd_models(v@) == m,
                (Err(e), Err(f)) => e.model() == f,
                _ => false,
            },
        decreases k, 13nat,
    {
        let ghost w = self.model();
        let ghost g = build(w, k as nat);
        proof {
            reveal(f_commands);
        }
        let none = Vec::new();
        proof {
            assert(cmd_models(none@) =~= Seq::empty());
        }
        let all = match self.cmd_list(at, cs, next, lo, prov, none, k) {
            Ok(x) => x,
            Err(e) => {
                return Err(e);
            },
        };
        let neg = FExpr::not(FExpr::or(list_guards(&all)));
        return self.else_cmds(at, cs, next, lo, prov, &neg, all, k);

    }

    /// State variables of one class and type.
    fn base_names(
        &self,
        at: usize,
        v: &Vec<Ident>,
        t: &CType,
        class: VarClass,
        span: Span,
        amb: &Vec<(String, VarEntry)>,
        e0: Elab,
        ls0: Vec<LeafInfo>,
        k: usize
    ) -> (res: Result<(Elab, Vec<LeafInfo>), CheckError>)
        ensures
            match (
                res,
                f_base_names(
                    self.model(),
                    at as nat,
                    ident_models(v@),
                    t.model(),
                    class,
                    span,
                    entries(amb@),
                    e0.model(),
                    leaf_infos(ls0@),
                    build(self.model(), k as nat),
                    0
                )
            ) {
                (Ok(v), Ok(m)) => v.0.model() == m.0 && leaf_infos(v.1@) == m.1,
                (Err(e), Err(f)) => e.model() == f,
                _ => false,
            },
        decreases k, 3nat,
    {
        let ghost w = self.model();
        let ghost g = build(w, k as nat);
        let mut e = e0;
        let mut ls = ls0;
        let mut i: usize = 0;
        while i < v.len()
            invariant
                i <= v@.len(),
                w == self.model(),
                g == build(w, k as nat),
                f_base_names(
                    w,
                    at as nat,
                    ident_models(v@),
                    t.model(),
                    class,
                    span,
                    entries(amb@),
                    e.model(),
                    leaf_infos(ls@),
                    g,
                    i as int
                ) == f_base_names(w, at as nat, ident_models(v@), t.model(), class, span, entries(amb@), e0.model(), leaf_infos(ls0@), g, 0),
            decreases v.len() - i,
        {
            proof {
                reveal_with_fuel(f_base_names, 1);
                assert(ident_models(v@)[i as int] == v@[i as int].model());
            }
            let ghost nm = v@[i as int].model();
            if find_entry_place(&e.vars, &v[i].name).is_some() {
                i += 1;
                continue;
            }
            match find_ambient(amb, &v[i].name) {
                Some(x) => {
                    let y = VarEntry { class, ctype: x.ctype.copy(), skel: x.skel.copy() };
                    e = add_elab_var(e, v[i].name.clone(), y);
                    i += 1;
                    continue;
                },
                None => {
                    let (v1, ls1) = match self.alloc_skel(at, &v[i].name, t, class, span, ls, k) {
                        Ok(x) => x,
                        Err(e) => {
                            return Err(e);
                        },
                    };
                    let y = VarEntry { class, ctype: t.copy(), skel: v1 };
                    e = add_elab_var(e, v[i].name.clone(), y);
                    ls = ls1;
                    i += 1;
                    continue;
                },
            }

        }
        proof {
            reveal_with_fuel(f_base_names, 1);
        }
        Ok((e, ls))
    }

    /// State variables of one class.
    fn base_groups(
        &self,
        at: usize,
        v: &Vec<VarDecl>,
        class: VarClass,
        lo: &Vec<(String, SVal)>,
        amb: &Vec<(String, VarEntry)>,
        e0: Elab,
        ls0: Vec<LeafInfo>,
        k: usize
    ) -> (res: Result<(Elab, Vec<LeafInfo>), CheckError>)
        ensures
            match (
                res,
                f_base_groups(
                    self.model(),
                    at as nat,
                    var_decl_models(v@),
                    class,
                    sv_fields(lo@),
                    entries(amb@),
                    e0.model(),
                    leaf_infos(ls0@),
                    build(self.model(), k as nat),
                    0
                )
            ) {
                (Ok(v), Ok(m)) => v.0.model() == m.0 && leaf_infos(v.1@) == m.1,
                (Err(e), Err(f)) => e.model() == f,
                _ => false,
            },
        decreases k, 5nat,
    {
        let ghost w = self.model();
        let ghost g = build(w, k as nat);
        let mut e = e0;
        let mut ls = ls0;
        let mut i: usize = 0;
        while i < v.len()
            invariant
                i <= v@.len(),
                w == self.model(),
                g == build(w, k as nat),
                f_base_groups(
                    w,
                    at as nat,
                    var_decl_models(v@),
                    class,
                    sv_fields(lo@),
                    entries(amb@),
                    e.model(),
                    leaf_infos(ls@),
                    g,
                    i as int
                ) == f_base_groups(w, at as nat, var_decl_models(v@), class, sv_fields(lo@), entries(amb@), e0.model(), leaf_infos(ls0@), g, 0),
            decreases v.len() - i,
        {
            proof {
                reveal_with_fuel(f_base_groups, 1);
                assert(var_decl_models(v@)[i as int] == v@[i as int].model());
            }
            let idle: Vec<(usize, String)> = Vec::new();
            proof { assert(busy_views(idle@) =~= Seq::empty()); }
            let ghost dm = v@[i as int].model();
            let t = match self.resolve_ctype(at, &v[i].ty, lo, &idle, DEPTH) {
                Ok(x) => x,
                Err(e) => {
                    return Err(e);
                },
            };
            let (e1, ls1) = match self.base_names(at, &v[i].names, &t, class, v[i].span, amb, e, ls, k) {
                Ok(x) => x,
                Err(e) => {
                    return Err(e);
                },
            };
            e = e1;
            ls = ls1;
            i += 1;
            continue;

        }
        proof {
            reveal_with_fuel(f_base_groups, 1);
        }
        Ok((e, ls))
    }

    /// The state variables of a base module.
    fn base_vars(
        &self,
        at: usize,
        v: &Vec<BaseDecl>,
        lo: &Vec<(String, SVal)>,
        amb: &Vec<(String, VarEntry)>,
        e0: Elab,
        ls0: Vec<LeafInfo>,
        k: usize
    ) -> (res: Result<(Elab, Vec<LeafInfo>), CheckError>)
        ensures
            match (
                res,
                f_base_vars(
                    self.model(),
                    at as nat,
                    base_decl_models(v@),
                    sv_fields(lo@),
                    entries(amb@),
                    e0.model(),
                    leaf_infos(ls0@),
                    build(self.model(), k as nat),
                    0
                )
            ) {
                (Ok(v), Ok(m)) => v.0.model() == m.0 && leaf_infos(v.1@) == m.1,
                (Err(e), Err(f)) => e.model() == f,
                _ => false,
            },
        decreases k, 7nat,
    {
        let ghost w = self.model();
        let ghost g = build(w, k as nat);
        let mut e = e0;
        let mut ls = ls0;
        let mut i: usize = 0;
        while i < v.len()
            invariant
                i <= v@.len(),
                w == self.model(),
                g == build(w, k as nat),
                f_base_vars(
                    w,
                    at as nat,
                    base_decl_models(v@),
                    sv_fields(lo@),
                    entries(amb@),
                    e.model(),
                    leaf_infos(ls@),
                    g,
                    i as int
                ) == f_base_vars(w, at as nat, base_decl_models(v@), sv_fields(lo@), entries(amb@), e0.model(), leaf_infos(ls0@), g, 0),
            decreases v.len() - i,
        {
            proof {
                reveal_with_fuel(f_base_vars, 1);
                assert(base_decl_models(v@)[i as int] == v@[i as int].model());
            }
            match &v[i] {
                BaseDecl::Vars(c, ds) => {
                    let (e1, ls1) = match self.base_groups(at, ds, *c, lo, amb, e, ls, k) {
                        Ok(x) => x,
                        Err(e) => {
                            return Err(e);
                        },
                    };
                    e = e1;
                    ls = ls1;
                    i += 1;
                    continue;
                },
                _ => {
                    i += 1;
                    continue;
                },
            }

        }
        proof {
            reveal_with_fuel(f_base_vars, 1);
        }
        Ok((e, ls))
    }

    /// The predicates of the type of state variables.
    fn sub_names(
        &self,
        at: usize,
        v: &Vec<Ident>,
        t: &Type,
        span: Span,
        lo: &Vec<(String, SVal)>,
        e0: Elab,
        k: usize
    ) -> (res: Result<Elab, CheckError>)
        ensures
            match (
                res,
                f_sub_names(
                    self.model(),
                    at as nat,
                    ident_models(v@),
                    t.model(),
                    span,
                    sv_fields(lo@),
                    e0.model(),
                    build(self.model(), k as nat),
                    0
                )
            ) {
                (Ok(v), Ok(m)) => v.model() == m,
                (Err(e), Err(f)) => e.model() == f,
                _ => false,
            },
        decreases k, 3nat,
    {
        let ghost w = self.model();
        let ghost g = build(w, k as nat);
        let mut e = e0;
        let mut i: usize = 0;
        while i < v.len()
            invariant
                i <= v@.len(),
                w == self.model(),
                g == build(w, k as nat),
                f_sub_names(
                    w,
                    at as nat,
                    ident_models(v@),
                    t.model(),
                    span,
                    sv_fields(lo@),
                    e.model(),
                    g,
                    i as int
                ) == f_sub_names(w, at as nat, ident_models(v@), t.model(), span, sv_fields(lo@), e0.model(), g, 0),
            decreases v.len() - i,
        {
            proof {
                reveal_with_fuel(f_sub_names, 1);
                assert(ident_models(v@)[i as int] == v@[i as int].model());
            }
            let ghost nm = v@[i as int].model();
            let p = match find_entry_place(&e.vars, &v[i].name) {
                Some(x) => x,
                None => {
                    return Err(self.fault(at, span, text3("Undeclared state variable \"", v[i].name.as_str(), "\".")));
                },
            };
            proof {
                assert(entries(e.vars@)[p as int] == (e.vars@[p as int].0@, e.vars@[p as int].1.model()));
            }
            let c = match self.subtype_constraint(at, t, &e.vars[p].1.skel, span, lo, k) {
                Ok(x) => x,
                Err(e) => {
                    return Err(e);
                },
            };
            e = add_constraint(e, c);
            i += 1;
            continue;

        }
        proof {
            reveal_with_fuel(f_sub_names, 1);
        }
        Ok(e)
    }

    /// The predicates of the types of state variables of one class.
    fn sub_groups(
        &self,
        at: usize,
        v: &Vec<VarDecl>,
        lo: &Vec<(String, SVal)>,
        e0: Elab,
        k: usize
    ) -> (res: Result<Elab, CheckError>)
        ensures
            match (
                res,
                f_sub_groups(
                    self.model(),
                    at as nat,
                    var_decl_models(v@),
                    sv_fields(lo@),
                    e0.model(),
                    build(self.model(), k as nat),
                    0
                )
            ) {
                (Ok(v), Ok(m)) => v.model() == m,
                (Err(e), Err(f)) => e.model() == f,
                _ => false,
            },
        decreases k, 5nat,
    {
        let ghost w = self.model();
        let ghost g = build(w, k as nat);
        let mut e = e0;
        let mut i: usize = 0;
        while i < v.len()
            invariant
                i <= v@.len(),
                w == self.model(),
                g == build(w, k as nat),
                f_sub_groups(
                    w,
                    at as nat,
                    var_decl_models(v@),
                    sv_fields(lo@),
                    e.model(),
                    g,
                    i as int
                ) == f_sub_groups(w, at as nat, var_decl_models(v@), sv_fields(lo@), e0.model(), g, 0),
            decreases v.len() - i,
        {
            proof {
                reveal_with_fuel(f_sub_groups, 1);
                assert(var_decl_models(v@)[i as int] == v@[i as int].model());
            }
            let ghost dm = v@[i as int].model();
            let e1 = match self.sub_names(at, &v[i].names, &v[i].ty, v[i].span, lo, e, k) {
                Ok(x) => x,
                Err(e) => {
                    return Err(e);
                },
            };
            e = e1;
            i += 1;
            continue;

        }
        proof {
            reveal_with_fuel(f_sub_groups, 1);
        }
        Ok(e)
    }

    /// The predicates of the types of state variables.
    fn sub_vars(
        &self,
        at: usize,
        v: &Vec<BaseDecl>,
        lo: &Vec<(String, SVal)>,
        e0: Elab,
        k: usize
    ) -> (res: Result<Elab, CheckError>)
        ensures
            match (
                res,
                f_sub_vars(
                    self.model(),
                    at as nat,
                    base_decl_models(v@),
                    sv_fields(lo@),
                    e0.model(),
                    build(self.model(), k as nat),
                    0
                )
            ) {
                (Ok(v), Ok(m)) => v.model() == m,
                (Err(e), Err(f)) => e.model() == f,
                _ => false,
            },
        decreases k, 7nat,
    {
        let ghost w = self.model();
        let ghost g = build(w, k as nat);
        let mut e = e0;
        let mut i: usize = 0;
        while i < v.len()
            invariant
                i <= v@.len(),
                w == self.model(),
                g == build(w, k as nat),
                f_sub_vars(
                    w,
                    at as nat,
                    base_decl_models(v@),
                    sv_fields(lo@),
                    e.model(),
                    g,
                    i as int
                ) == f_sub_vars(w, at as nat, base_decl_models(v@), sv_fields(lo@), e0.model(), g, 0),
            decreases v.len() - i,
        {
            proof {
                reveal_with_fuel(f_sub_vars, 1);
                assert(base_decl_models(v@)[i as int] == v@[i as int].model());
            }
            match &v[i] {
                BaseDecl::Vars(_c, ds) => {
                    let e1 = match self.sub_groups(at, ds, lo, e, k) {
                        Ok(x) => x,
                        Err(e) => {
                            return Err(e);
                        },
                    };
                    e = e1;
                    i += 1;
                    continue;
                },
                _ => {
                    i += 1;
                    continue;
                },
            }

        }
        proof {
            reveal_with_fuel(f_sub_vars, 1);
        }
        Ok(e)
    }

    /// The definitions that hold in every state.
    fn invariant_defs(
        &self,
        at: usize,
        v: &Vec<Definition>,
        lo: &Vec<(String, SVal)>,
        e0: Elab,
        k: usize
    ) -> (res: Result<Elab, CheckError>)
        ensures
            match (
                res,
                f_invariant_defs(
                    self.model(),
                    at as nat,
                    definition_models(v@),
                    sv_fields(lo@),
                    e0.model(),
                    build(self.model(), k as nat),
                    0
                )
            ) {
                (Ok(v), Ok(m)) => v.model() == m,
                (Err(e), Err(f)) => e.model() == f,
                _ => false,
            },
        decreases k, 4nat,
    {
        let ghost w = self.model();
        let ghost g = build(w, k as nat);
        let mut e = e0;
        let mut i: usize = 0;
        while i < v.len()
            invariant
                i <= v@.len(),
                w == self.model(),
                g == build(w, k as nat),
                f_invariant_defs(
                    w,
                    at as nat,
                    definition_models(v@),
                    sv_fields(lo@),
                    e.model(),
                    g,
                    i as int
                ) == f_invariant_defs(w, at as nat, definition_models(v@), sv_fields(lo@), e0.model(), g, 0),
            decreases v.len() - i,
        {
            proof {
                reveal_with_fuel(f_invariant_defs, 1);
                assert(definition_models(v@)[i as int] == v@[i as int].model());
            }
            let c = match self.elab_definition(at, &v[i], false, lo, k) {
                Ok(x) => x,
                Err(e) => {
                    return Err(e);
                },
            };
            e = add_invariant(e, c);
            let none = Vec::new();
            proof {
                assert(none@ =~= Seq::empty());
            }
            let hs = match self.definition_lhs_leaves(at, &v[i], lo, none, k) {
                Ok(x) => x,
                Err(e) => {
                    return Err(e);
                },
            };
            e = add_defined(e, &hs);
            i += 1;
            continue;

        }
        proof {
            reveal_with_fuel(f_invariant_defs, 1);
        }
        Ok(e)
    }

    /// What an initialization section says.
    fn init_items(
        &self,
        at: usize,
        v: &Vec<DefOrCommand>,
        lo: &Vec<(String, SVal)>,
        prov: &String,
        e0: Elab,
        k: usize
    ) -> (res: Result<Elab, CheckError>)
        ensures
            match (
                res,
                f_init_items(
                    self.model(),
                    at as nat,
                    def_or_command_models(v@),
                    sv_fields(lo@),
                    e0.model(),
                    build(self.model(), k as nat),
                    0
                )
            ) {
                (Ok(v), Ok(m)) => v.model() == m,
                (Err(e), Err(f)) => e.model() == f,
                _ => false,
            },
        decreases k, 14nat,
    {
        let ghost w = self.model();
        let ghost g = build(w, k as nat);
        let mut e = e0;
        let mut i: usize = 0;
        while i < v.len()
            invariant
                i <= v@.len(),
                w == self.model(),
                g == build(w, k as nat),
                f_init_items(
                    w,
                    at as nat,
                    def_or_command_models(v@),
                    sv_fields(lo@),
                    e.model(),
                    g,
                    i as int
                ) == f_init_items(w, at as nat, def_or_command_models(v@), sv_fields(lo@), e0.model(), g, 0),
            decreases v.len() - i,
        {
            proof {
                reveal_with_fuel(f_init_items, 1);
                assert(def_or_command_models(v@)[i as int] == v@[i as int].model());
            }
            match &v[i] {
                DefOrCommand::Def(d) => {
                    let c = match self.elab_definition(at, d, false, lo, k) {
                        Ok(x) => x,
                        Err(e) => {
                            return Err(e);
                        },
                    };
                    e = add_init_def(e, c);
                    i += 1;
                    continue;
                },
                DefOrCommand::Commands(cs, _s) => {
                    let b = match self.commands(at, cs, false, lo, prov, k) {
                        Ok(x) => x,
                        Err(e) => {
                            return Err(e);
                        },
                    };
                    e = add_init_block(e, b);
                    i += 1;
                    continue;
                },
            }

        }
        proof {
            reveal_with_fuel(f_init_items, 1);
        }
        Ok(e)
    }

    /// What a transition section says, and its choices.
    fn trans_items(
        &self,
        at: usize,
        v: &Vec<DefOrCommand>,
        lo: &Vec<(String, SVal)>,
        prov: &String,
        e0: Elab,
        bs0: Vec<Vec<FlatCmd>>,
        k: usize
    ) -> (res: Result<(Elab, Vec<Vec<FlatCmd>>), CheckError>)
        ensures
            match (
                res,
                f_trans_items(
                    self.model(),
                    at as nat,
                    def_or_command_models(v@),
                    sv_fields(lo@),
                    e0.model(),
                    block_models(bs0@),
                    build(self.model(), k as nat),
                    0
                )
            ) {
                (Ok(v), Ok(m)) => v.0.model() == m.0 && block_models(v.1@) == m.1,
                (Err(e), Err(f)) => e.model() == f,
                _ => false,
            },
        decreases k, 14nat,
    {
        let ghost w = self.model();
        let ghost g = build(w, k as nat);
        let mut e = e0;
        let mut bs = bs0;
        let mut i: usize = 0;
        while i < v.len()
            invariant
                i <= v@.len(),
                w == self.model(),
                g == build(w, k as nat),
                f_trans_items(
                    w,
                    at as nat,
                    def_or_command_models(v@),
                    sv_fields(lo@),
                    e.model(),
                    block_models(bs@),
                    g,
                    i as int
                ) == f_trans_items(w, at as nat, def_or_command_models(v@), sv_fields(lo@), e0.model(), block_models(bs0@), g, 0),
            decreases v.len() - i,
        {
            proof {
                reveal_with_fuel(f_trans_items, 1);
                assert(def_or_command_models(v@)[i as int] == v@[i as int].model());
            }
            match &v[i] {
                DefOrCommand::Def(d) => {
                    let c = match self.elab_definition(at, d, true, lo, k) {
                        Ok(x) => x,
                        Err(e) => {
                            return Err(e);
                        },
                    };
                    let none = Vec::new();
                    proof {
                        assert(none@ =~= Seq::empty());
                    }
                    let hs = match self.definition_lhs_leaves(at, d, lo, none, k) {
                        Ok(x) => x,
                        Err(e) => {
                            return Err(e);
                        },
                    };
                    e = add_defined(add_trans_def(e, c), &hs);
                    i += 1;
                    continue;
                },
                DefOrCommand::Commands(cs, _s) => {
                    let b = match self.commands(at, cs, true, lo, prov, k) {
                        Ok(x) => x,
                        Err(e) => {
                            return Err(e);
                        },
                    };
                    bs = add_block(bs, b);
                    i += 1;
                    continue;
                },
            }

        }
        proof {
            reveal_with_fuel(f_trans_items, 1);
        }
        Ok((e, bs))
    }

    /// What the sections of a base module say.
    fn sections(
        &self,
        at: usize,
        v: &Vec<BaseDecl>,
        lo: &Vec<(String, SVal)>,
        prov: &String,
        n: usize,
        e0: Elab,
        k: usize
    ) -> (res: Result<Elab, CheckError>)
        requires
            n <= u32::MAX,
        ensures
            match (
                res,
                f_sections(
                    self.model(),
                    at as nat,
                    base_decl_models(v@),
                    sv_fields(lo@),
                    n as nat,
                    e0.model(),
                    build(self.model(), k as nat),
                    0
                )
            ) {
                (Ok(v), Ok(m)) => v.model() == m,
                (Err(e), Err(f)) => e.model() == f,
                _ => false,
            },
        decreases k, 16nat,
    {
        let ghost w = self.model();
        let ghost g = build(w, k as nat);
        let mut e = e0;
        let mut i: usize = 0;
        while i < v.len()
            invariant
                i <= v@.len(),
                w == self.model(),
                g == build(w, k as nat),
                f_sections(
                    w,
                    at as nat,
                    base_decl_models(v@),
                    sv_fields(lo@),
                    n as nat,
                    e.model(),
                    g,
                    i as int
                ) == f_sections(w, at as nat, base_decl_models(v@), sv_fields(lo@), n as nat, e0.model(), g, 0),
                n <= u32::MAX,
            decreases v.len() - i,
        {
            proof {
                reveal_with_fuel(f_sections, 1);
                assert(base_decl_models(v@)[i as int] == v@[i as int].model());
            }
            match &v[i] {
                BaseDecl::Vars(_c, _d) => {
                    i += 1;
                    continue;
                },
                BaseDecl::Definition(ds) => {
                    let e1 = match self.invariant_defs(at, ds, lo, e, k) {
                        Ok(x) => x,
                        Err(e) => {
                            return Err(e);
                        },
                    };
                    e = e1;
                    i += 1;
                    continue;
                },
                BaseDecl::Initialization(ds) => {
                    let e1 = match self.init_items(at, ds, lo, prov, e, k) {
                        Ok(x) => x,
                        Err(e) => {
                            return Err(e);
                        },
                    };
                    e = e1;
                    i += 1;
                    continue;
                },
                BaseDecl::Transition(ds) => {
                    let nob = Vec::new();
                    proof {
                        assert(block_models(nob@) =~= Seq::empty());
                    }
                    let (e1, bs) = match self.trans_items(at, ds, lo, prov, e, nob, k) {
                        Ok(x) => x,
                        Err(e) => {
                            return Err(e);
                        },
                    };
                    let tr = make_trans(&bs, &e1.controlled, &e1.def_next, n);
                    e = set_trans(e1, tr);
                    i += 1;
                    continue;
                },
            }

        }
        proof {
            reveal_with_fuel(f_sections, 1);
        }
        Ok(e)
    }

    /// A base module.
    fn base(
        &self,
        at: usize,
        b: &BaseModule,
        lo: &Vec<(String, SVal)>,
        amb: &Vec<(String, VarEntry)>,
        prov: &String,
        ls: Vec<LeafInfo>,
        k: usize
    ) -> (res: Result<(Elab, Vec<LeafInfo>), CheckError>)
        ensures
            match (
                res,
                f_base(
                    self.model(),
                    at as nat,
                    b.model(),
                    sv_fields(lo@),
                    entries(amb@),
                    leaf_infos(ls@),
                    build(self.model(), k as nat)
                )
            ) {
                (Ok(v), Ok(m)) => v.0.model() == m.0 && leaf_infos(v.1@) == m.1,
                (Err(e), Err(f)) => e.model() == f,
                _ => false,
            },
        decreases k, 17nat,
    {
        let ghost w = self.model();
        let ghost g = build(w, k as nat);
        proof {
            reveal(f_base);
        }
        let e0 = empty_elab();
        let (e1, ls) = match self.base_vars(at, &b.decls, lo, amb, e0, ls, k) {
            Ok(x) => x,
            Err(e) => {
                return Err(e);
            },
        };
        if ls.len() > 4_294_967_295 {
            return Err(self.fault(at, b.span, own("Too many leaves.")));
        }
        let e2 = match self.sub_vars(at, &b.decls, lo, e1, k) {
            Ok(x) => x,
            Err(e) => {
                return Err(e);
            },
        };
        let lo2 = add_state(lo, &e2.vars);
        let n = ls.len();
        let e3 = match self.sections(at, &b.decls, &lo2, prov, n, e2, k) {
            Ok(x) => x,
            Err(e) => {
                return Err(e);
            },
        };
        if !find_transition(&b.decls) {
            return Ok((make_part(make_stutter(e3, n)), ls));
        }
        return Ok((make_part(e3), ls));

    }

    /// A module.
    fn module_body(
        &self,
        at: usize,
        x: &Module,
        lo: &Vec<(String, SVal)>,
        amb: Vec<(String, VarEntry)>,
        prov: &String,
        ls: Vec<LeafInfo>,
        k: usize
    ) -> (res: Result<(Elab, Vec<(String, VarEntry)>, Vec<LeafInfo>), CheckError>)
        ensures
            match (
                res,
                f_module_body(
                    self.model(),
                    at as nat,
                    x.model(),
                    sv_fields(lo@),
                    entries(amb@),
                    leaf_infos(ls@),
                    build(self.model(), k as nat)
                )
            ) {
                (Ok(v), Ok(m)) => v.0.model() == m.0 && entries(v.1@) == m.1 && leaf_infos(v.2@) == m.2,
                (Err(e), Err(f)) => e.model() == f,
                _ => false,
            },
        decreases k, 22nat,
    {
        let ghost w = self.model();
        let ghost g = build(w, k as nat);
        proof {
            reveal(f_module_body);
        }
        let ghost xm = x.kind.model();
        match &x.kind {
            ModuleKind::Base(b) => {
                let (e, ls1) = match self.base(at, b, lo, &amb, prov, ls, k) {
                    Ok(x) => x,
                    Err(e) => {
                        return Err(e);
                    },
                };
                return Ok((e, amb, ls1));
            },
            ModuleKind::Instance(n, args) => {
                return self.instance(at, n, args, x.span, lo, amb, prov, ls, k);
            },
            ModuleKind::Sync(a, b) => {
                return self.composed(at, a, b, true, true, x.span, lo, amb, prov, ls, k);
            },
            ModuleKind::Async(a, b) => {
                return self.composed(at, a, b, false, true, x.span, lo, amb, prov, ls, k);
            },
            ModuleKind::Observe(a, b) => {
                return self.composed(at, a, b, true, false, x.span, lo, amb, prov, ls, k);
            },
            _ => {
                return self.module_rest(at, x, lo, amb, prov, ls, k);
            },
        }

    }

    /// A module made of another.
    fn module_rest(
        &self,
        at: usize,
        x: &Module,
        lo: &Vec<(String, SVal)>,
        amb: Vec<(String, VarEntry)>,
        prov: &String,
        ls: Vec<LeafInfo>,
        k: usize
    ) -> (res: Result<(Elab, Vec<(String, VarEntry)>, Vec<LeafInfo>), CheckError>)
        ensures
            match (
                res,
                f_module_rest(
                    self.model(),
                    at as nat,
                    x.model(),
                    sv_fields(lo@),
                    entries(amb@),
                    leaf_infos(ls@),
                    build(self.model(), k as nat)
                )
            ) {
                (Ok(v), Ok(m)) => v.0.model() == m.0 && entries(v.1@) == m.1 && leaf_infos(v.2@) == m.2,
                (Err(e), Err(f)) => e.model() == f,
                _ => false,
            },
        decreases k, 20nat,
    {
        let ghost w = self.model();
        let ghost g = build(w, k as nat);
        proof {
            reveal(f_module_rest);
        }
        let ghost xm = x.kind.model();
        match &x.kind {
            ModuleKind::MultiSync(d, m) => {
                return self.multi(at, d, m, true, x.span, lo, amb, prov, ls, k);
            },
            ModuleKind::MultiAsync(d, m) => {
                return self.multi(at, d, m, false, x.span, lo, amb, prov, ls, k);
            },
            ModuleKind::Hide(ids, m) => {
                let (e, amb1, ls1) = match self.elab(at, m, lo, amb, prov, ls, k) {
                    Ok(x) => x,
                    Err(e) => {
                        return Err(e);
                    },
                };
                return Ok((reclass(e, ids, VarClass::Local), amb1, ls1));
            },
            ModuleKind::NewOutput(ids, m) => {
                let (e, amb1, ls1) = match self.elab(at, m, lo, amb, prov, ls, k) {
                    Ok(x) => x,
                    Err(e) => {
                        return Err(e);
                    },
                };
                return Ok((reclass(e, ids, VarClass::Output), amb1, ls1));
            },
            ModuleKind::Rename(rs, m) => {
                let amb0 = copy_entries(&amb);
                let amb2 = match self.rename_targets(at, rs, lo, &amb, amb0, k) {
                    Ok(x) => x,
                    Err(e) => {
                        return Err(e);
                    },
                };
                let (e, _amb1, ls1) = match self.elab(at, m, lo, amb2, prov, ls, k) {
                    Ok(x) => x,
                    Err(e) => {
                        return Err(e);
                    },
                };
                let rv = rename_vars(&e.vars, rs, &amb, ls1);
                return Ok((set_vars(e, rv.0), amb, rv.1));
            },
            ModuleKind::With(ds, m) => {
                let front = Vec::new();
                proof {
                    assert(entries(front@) =~= Seq::empty());
                }
                let (fr, amb1, ls1) = match self.with_decls(at, ds, lo, front, amb, ls, k) {
                    Ok(x) => x,
                    Err(e) => {
                        return Err(e);
                    },
                };
                let (e, amb2, ls2) = match self.elab(at, m, lo, amb1, prov, ls1, k) {
                    Ok(x) => x,
                    Err(e) => {
                        return Err(e);
                    },
                };
                return Ok((put_fronted(e, &fr), amb2, ls2));
            },
            _ => {
                return Err(self.fault(at, x.span, own("Invalid module.")));
            },
        }

    }

    /// An instance of a declared module.
    fn instance(
        &self,
        at: usize,
        n: &Name,
        args: &Vec<Expr>,
        span: Span,
        lo: &Vec<(String, SVal)>,
        amb: Vec<(String, VarEntry)>,
        prov: &String,
        ls: Vec<LeafInfo>,
        k: usize
    ) -> (res: Result<(Elab, Vec<(String, VarEntry)>, Vec<LeafInfo>), CheckError>)
        ensures
            match (
                res,
                f_instance(
                    self.model(),
                    at as nat,
                    n.model(),
                    expr_models(args@),
                    span,
                    sv_fields(lo@),
                    entries(amb@),
                    leaf_infos(ls@),
                    build(self.model(), k as nat)
                )
            ) {
                (Ok(v), Ok(m)) => v.0.model() == m.0 && entries(v.1@) == m.1 && leaf_infos(v.2@) == m.2,
                (Err(e), Err(f)) => e.model() == f,
                _ => false,
            },
        decreases k, 5nat,
    {
        let ghost w = self.model();
        let ghost g = build(w, k as nat);
        proof {
            reveal(f_instance);
        }
        let ghost nm = n.id.model();
        let found = match self.find_entry(at, n) {
            Some(x) => x,
            None => {
                return Err(self.fault(at, span, text3("Unknown variable \"", n.id.name.as_str(), "\".")));
            },
        };
        match found.1 {
            Entry::Module(_p, _s, def, ds) => {
                let none = Vec::new();
                proof {
                    assert(sv_models(none@) =~= Seq::empty());
                }
                let vs = match self.exprs(at, args, lo, none, DEPTH) {
                    Ok(x) => x,
                    Err(e) => {
                        return Err(e);
                    },
                };
                let names = list_all_names(ds);
                if names.len() != vs.len() {
                    return Err(self.fault(at, span, own("Wrong number of module actuals.")));
                }
                let nolo = Vec::new();
                proof {
                    assert(sv_fields(nolo@) =~= Seq::empty());
                }
                let inner = add_args(&nolo, &names, &vs);
                let prov2 = self.module_provenance(at, prov, span);
                return self.elab(found.0, def, &inner, amb, &prov2, ls, k);
            },
            _ => {
                return Err(self.fault(at, span, text3("\"", n.id.name.as_str(), "\" is not a module.")));
            },
        }

    }

    /// Two modules composed.
    fn composed(
        &self,
        at: usize,
        a: &Module,
        b: &Module,
        sync: bool,
        keep: bool,
        span: Span,
        lo: &Vec<(String, SVal)>,
        amb: Vec<(String, VarEntry)>,
        prov: &String,
        ls: Vec<LeafInfo>,
        k: usize
    ) -> (res: Result<(Elab, Vec<(String, VarEntry)>, Vec<LeafInfo>), CheckError>)
        ensures
            match (
                res,
                f_composed(
                    self.model(),
                    at as nat,
                    a.model(),
                    b.model(),
                    sync,
                    keep,
                    span,
                    sv_fields(lo@),
                    entries(amb@),
                    leaf_infos(ls@),
                    build(self.model(), k as nat)
                )
            ) {
                (Ok(v), Ok(m)) => v.0.model() == m.0 && entries(v.1@) == m.1 && leaf_infos(v.2@) == m.2,
                (Err(e), Err(f)) => e.model() == f,
                _ => false,
            },
        decreases k, 5nat,
    {
        let ghost w = self.model();
        let ghost g = build(w, k as nat);
        proof {
            reveal(f_composed);
        }
        let (ea, amb1, ls1) = match self.elab(at, a, lo, amb, prov, ls, k) {
            Ok(x) => x,
            Err(e) => {
                return Err(e);
            },
        };
        let amb2 = share(copy_entries(&amb1), &ea.vars, false);
        let (eb, _amb3, ls) = match self.elab(at, b, lo, amb2, prov, ls1, k) {
            Ok(x) => x,
            Err(e) => {
                return Err(e);
            },
        };
        if ls.len() > 4_294_967_295 {
            return Err(self.fault(at, span, own("Too many leaves.")));
        }
        let amb4 = if keep { share(share(amb1, &eb.vars, true), &ea.vars, true) } else { amb1 };
        let r = merge_binary(ea, eb, sync, ls);
        return Ok((r.0, amb4, r.1));

    }

    /// A module composed with itself over an index type.
    fn multi(
        &self,
        at: usize,
        d: &VarDecl,
        m: &Module,
        sync: bool,
        span: Span,
        lo: &Vec<(String, SVal)>,
        amb: Vec<(String, VarEntry)>,
        prov: &String,
        ls: Vec<LeafInfo>,
        k: usize
    ) -> (res: Result<(Elab, Vec<(String, VarEntry)>, Vec<LeafInfo>), CheckError>)
        ensures
            match (
                res,
                f_multi(
                    self.model(),
                    at as nat,
                    d.model(),
                    m.model(),
                    sync,
                    span,
                    sv_fields(lo@),
                    entries(amb@),
                    leaf_infos(ls@),
                    build(self.model(), k as nat)
                )
            ) {
                (Ok(v), Ok(m)) => v.0.model() == m.0 && entries(v.1@) == m.1 && leaf_infos(v.2@) == m.2,
                (Err(e), Err(f)) => e.model() == f,
                _ => false,
            },
        decreases k, 7nat,
    {
        let ghost w = self.model();
        let ghost g = build(w, k as nat);
        proof {
            reveal(f_multi);
        }
        let idle: Vec<(usize, String)> = Vec::new();
        proof { assert(busy_views(idle@) =~= Seq::empty()); }
        let ghost dm = d.model();
        let t = match self.resolve_ctype(at, &d.ty, lo, &idle, DEPTH) {
            Ok(x) => x,
            Err(e) => {
                return Err(e);
            },
        };
        let vals = match t.enumerate() {
            Some(x) => x,
            None => {
                return Err(self.fault(at, span, own("Finite type expected in multi-composition.")));
            },
        };
        let noe = Vec::new();
        proof {
            assert(elabs(noe@) =~= Seq::empty());
        }
        let (es, amb1, ls) = match self.copies(at, &vals, &d.names, m, lo, prov, noe, amb, ls, k) {
            Ok(x) => x,
            Err(e) => {
                return Err(e);
            },
        };
        if ls.len() > 4_294_967_295 {
            return Err(self.fault(at, span, own("Too many leaves.")));
        }
        if es.len() >= usize::MAX {
            return Err(self.fault(at, span, own("Too many leaves.")));
        }
        let r = merge_multi(es, &t, &vals, sync, ls);
        return Ok((r.0, amb1, r.1));

    }

    /// The copies of a module, one for each value of an index type.
    fn copies(
        &self,
        at: usize,
        v: &Vec<Value>,
        ids: &Vec<Ident>,
        m: &Module,
        lo: &Vec<(String, SVal)>,
        prov: &String,
        es0: Vec<Elab>,
        amb0: Vec<(String, VarEntry)>,
        ls0: Vec<LeafInfo>,
        k: usize
    ) -> (res: Result<(Vec<Elab>, Vec<(String, VarEntry)>, Vec<LeafInfo>), CheckError>)
        ensures
            match (
                res,
                f_copies(
                    self.model(),
                    at as nat,
                    models(v@),
                    ident_models(ids@),
                    m.model(),
                    sv_fields(lo@),
                    elabs(es0@),
                    entries(amb0@),
                    leaf_infos(ls0@),
                    build(self.model(), k as nat),
                    0
                )
            ) {
                (Ok(v), Ok(m)) => elabs(v.0@) == m.0 && entries(v.1@) == m.1 && leaf_infos(v.2@) == m.2,
                (Err(e), Err(f)) => e.model() == f,
                _ => false,
            },
        decreases k, 3nat,
    {
        let ghost w = self.model();
        let ghost g = build(w, k as nat);
        let mut es = es0;
        let mut amb = amb0;
        let mut ls = ls0;
        let mut i: usize = 0;
        while i < v.len()
            invariant
                i <= v@.len(),
                w == self.model(),
                g == build(w, k as nat),
                f_copies(
                    w,
                    at as nat,
                    models(v@),
                    ident_models(ids@),
                    m.model(),
                    sv_fields(lo@),
                    elabs(es@),
                    entries(amb@),
                    leaf_infos(ls@),
                    g,
                    i as int
                ) == f_copies(w, at as nat, models(v@), ident_models(ids@), m.model(), sv_fields(lo@), elabs(es0@), entries(amb0@), leaf_infos(ls0@), g, 0),
            decreases v.len() - i,
        {
            proof {
                reveal_with_fuel(f_copies, 1);
                assert(models(v@)[i as int] == v@[i as int].model());
            }
            let inner = add_first(lo, ids, SVal::Ground(v[i].clone()));
            let (e, amb1, ls1) = match self.elab(at, m, &inner, amb, prov, ls, k) {
                Ok(x) => x,
                Err(e) => {
                    return Err(e);
                },
            };
            amb = share(amb1, &e.vars, true);
            ls = ls1;
            let ghost em = e.model();
            let ghost a0 = es@;
            es.push(e);
            proof { assert(elabs(es@) =~= elabs(a0).push(em)); }
            i += 1;
            continue;

        }
        proof {
            reveal_with_fuel(f_copies, 1);
        }
        Ok((es, amb, ls))
    }

    /// The variables that a renamed module sees: those around it, and under the old names what the new ones stand for.
    fn rename_targets(
        &self,
        at: usize,
        v: &Vec<(Lhs, Lhs)>,
        lo: &Vec<(String, SVal)>,
        amb: &Vec<(String, VarEntry)>,
        acc0: Vec<(String, VarEntry)>,
        k: usize
    ) -> (res: Result<Vec<(String, VarEntry)>, CheckError>)
        ensures
            match (
                res,
                f_rename_targets(
                    self.model(),
                    at as nat,
                    lhs_lhs_pairs(v@),
                    sv_fields(lo@),
                    entries(amb@),
                    entries(acc0@),
                    build(self.model(), k as nat),
                    0
                )
            ) {
                (Ok(v), Ok(m)) => entries(v@) == m,
                (Err(e), Err(f)) => e.model() == f,
                _ => false,
            },
        decreases k, 7nat,
    {
        let ghost w = self.model();
        let ghost g = build(w, k as nat);
        let mut acc = acc0;
        let mut i: usize = 0;
        while i < v.len()
            invariant
                i <= v@.len(),
                w == self.model(),
                g == build(w, k as nat),
                f_rename_targets(
                    w,
                    at as nat,
                    lhs_lhs_pairs(v@),
                    sv_fields(lo@),
                    entries(amb@),
                    entries(acc@),
                    g,
                    i as int
                ) == f_rename_targets(w, at as nat, lhs_lhs_pairs(v@), sv_fields(lo@), entries(amb@), entries(acc0@), g, 0),
            decreases v.len() - i,
        {
            proof {
                reveal_with_fuel(f_rename_targets, 1);
                assert(lhs_lhs_pairs(v@)[i as int] == (v@[i as int].0.model(), v@[i as int].1.model()));
            }
            let ghost fm = v@[i as int].0.model();
            let ghost fb = v@[i as int].0.base.model();
            let ghost tm = v@[i as int].1.model();
            let ghost tb = v@[i as int].1.base.model();
            match find_ambient(amb, &v[i].1.base.name) {
                Some(x) => {
                    let sk0 = x.skel.copy();
                    let sk = match self.slice_skel(at, &v[i].1.accesses, v[i].1.span, lo, sk0, k) {
                        Ok(x) => x,
                        Err(e) => {
                            return Err(e);
                        },
                    };
                    let ct0 = x.ctype.copy();
                    let ct = match self.slice_ctype(at, &v[i].1.accesses, v[i].1.span, ct0, k) {
                        Ok(x) => x,
                        Err(e) => {
                            return Err(e);
                        },
                    };
                    let y = VarEntry { class: x.class, ctype: ct, skel: sk };
                    acc = add_var(acc, v[i].0.base.name.clone(), y);
                    i += 1;
                    continue;
                },
                None => {
                    if v[i].1.accesses.len() == 0 {
                        i += 1;
                        continue;
                    }
                    return Err(self.fault(at, v[i].1.span, text3("Undeclared state variable \"", v[i].1.base.name.as_str(), "\".")));
                },
            }

        }
        proof {
            reveal_with_fuel(f_rename_targets, 1);
        }
        Ok(acc)
    }

    /// The part of a state variable that a renaming leads to.
    fn slice_skel(
        &self,
        at: usize,
        v: &Vec<Access>,
        span: Span,
        lo: &Vec<(String, SVal)>,
        acc0: SVal,
        k: usize
    ) -> (res: Result<SVal, CheckError>)
        ensures
            match (
                res,
                f_slice_skel(
                    self.model(),
                    at as nat,
                    access_models(v@),
                    span,
                    sv_fields(lo@),
                    acc0.model(),
                    build(self.model(), k as nat),
                    0
                )
            ) {
                (Ok(v), Ok(m)) => v.model() == m,
                (Err(e), Err(f)) => e.model() == f,
                _ => false,
            },
        decreases k, 5nat,
    {
        let ghost w = self.model();
        let ghost g = build(w, k as nat);
        let mut acc = acc0;
        let mut i: usize = 0;
        while i < v.len()
            invariant
                i <= v@.len(),
                w == self.model(),
                g == build(w, k as nat),
                f_slice_skel(
                    w,
                    at as nat,
                    access_models(v@),
                    span,
                    sv_fields(lo@),
                    acc.model(),
                    g,
                    i as int
                ) == f_slice_skel(w, at as nat, access_models(v@), span, sv_fields(lo@), acc0.model(), g, 0),
            decreases v.len() - i,
        {
            proof {
                reveal_with_fuel(f_slice_skel, 1);
                assert(access_models(v@)[i as int] == v@[i as int].model());
            }
            let t = match self.slice_step(at, &v[i], span, lo, &acc, k) {
                Ok(x) => x,
                Err(e) => {
                    return Err(e);
                },
            };
            acc = t;
            i += 1;
            continue;

        }
        proof {
            reveal_with_fuel(f_slice_skel, 1);
        }
        Ok(acc)
    }

    /// The part that one access of a renaming leads to.
    fn slice_step(
        &self,
        at: usize,
        a: &Access,
        span: Span,
        lo: &Vec<(String, SVal)>,
        c: &SVal,
        k: usize
    ) -> (res: Result<SVal, CheckError>)
        ensures
            match (
                res,
                f_slice_step(
                    self.model(),
                    at as nat,
                    a.model(),
                    span,
                    sv_fields(lo@),
                    c.model(),
                    build(self.model(), k as nat)
                )
            ) {
                (Ok(v), Ok(m)) => v.model() == m,
                (Err(e), Err(f)) => e.model() == f,
                _ => false,
            },
        decreases k, 3nat,
    {
        let ghost w = self.model();
        let ghost g = build(w, k as nat);
        proof {
            reveal(f_slice_step);
        }
        match a {
            Access::Array(ie) => {
                let iv = match self.eval(at, ie, lo, DEPTH) {
                    Ok(x) => x,
                    Err(e) => {
                        return Err(e);
                    },
                };
                match find_skel_element(c, &iv) {
                    Some(z) => {
                        return Ok(z);
                    },
                    None => {
                        return Err(self.fault(at, span, own("Invalid rename target access.")));
                    },
                }
            },
            Access::Record(f) => {
                match find_record_part(c, &f.name) {
                    Some(z) => {
                        return Ok(z);
                    },
                    None => {
                        return Err(self.fault(at, span, text3("Unknown field \"", f.name.as_str(), "\".")));
                    },
                }
            },
            Access::Tuple(n) => {
                match find_tuple_part(c, *n) {
                    Some(z) => {
                        return Ok(z);
                    },
                    None => {
                        return Err(self.fault(at, span, own("Tuple index out of bounds.")));
                    },
                }
            },
            Access::Args(_e) => {
                return Err(self.fault(at, span, own("Invalid rename target access.")));
            },
        }

    }

    /// The type of the part of a state variable that a renaming leads to.
    fn slice_ctype(
        &self,
        at: usize,
        v: &Vec<Access>,
        span: Span,
        acc0: CType,
        k: usize
    ) -> (res: Result<CType, CheckError>)
        ensures
            match (
                res,
                f_slice_ctype(
                    self.model(),
                    at as nat,
                    access_models(v@),
                    span,
                    acc0.model(),
                    build(self.model(), k as nat),
                    0
                )
            ) {
                (Ok(v), Ok(m)) => v.model() == m,
                (Err(e), Err(f)) => e.model() == f,
                _ => false,
            },
        decreases k, 3nat,
    {
        let ghost w = self.model();
        let ghost g = build(w, k as nat);
        let mut acc = acc0;
        let mut i: usize = 0;
        while i < v.len()
            invariant
                i <= v@.len(),
                w == self.model(),
                g == build(w, k as nat),
                f_slice_ctype(
                    w,
                    at as nat,
                    access_models(v@),
                    span,
                    acc.model(),
                    g,
                    i as int
                ) == f_slice_ctype(w, at as nat, access_models(v@), span, acc0.model(), g, 0),
            decreases v.len() - i,
        {
            proof {
                reveal_with_fuel(f_slice_ctype, 1);
                assert(access_models(v@)[i as int] == v@[i as int].model());
            }
            match find_type_part(&acc, &v[i]) {
                Some(t) => {
                    acc = t;
                    i += 1;
                    continue;
                },
                None => {
                    return Err(self.fault(at, span, own("Invalid rename target access.")));
                },
            }

        }
        proof {
            reveal_with_fuel(f_slice_ctype, 1);
        }
        Ok(acc)
    }

    /// The variables that a `WITH` module adds.
    fn with_decls(
        &self,
        at: usize,
        v: &Vec<NewVarDecl>,
        lo: &Vec<(String, SVal)>,
        fr0: Vec<(String, VarEntry)>,
        amb0: Vec<(String, VarEntry)>,
        ls0: Vec<LeafInfo>,
        k: usize
    ) -> (res: Result<(Vec<(String, VarEntry)>, Vec<(String, VarEntry)>, Vec<LeafInfo>), CheckError>)
        ensures
            match (
                res,
                f_with_decls(
                    self.model(),
                    at as nat,
                    new_var_decl_models(v@),
                    sv_fields(lo@),
                    entries(fr0@),
                    entries(amb0@),
                    leaf_infos(ls0@),
                    build(self.model(), k as nat),
                    0
                )
            ) {
                (Ok(v), Ok(m)) => entries(v.0@) == m.0 && entries(v.1@) == m.1 && leaf_infos(v.2@) == m.2,
                (Err(e), Err(f)) => e.model() == f,
                _ => false,
            },
        decreases k, 7nat,
    {
        let ghost w = self.model();
        let ghost g = build(w, k as nat);
        let mut fr = fr0;
        let mut amb = amb0;
        let mut ls = ls0;
        let mut i: usize = 0;
        while i < v.len()
            invariant
                i <= v@.len(),
                w == self.model(),
                g == build(w, k as nat),
                f_with_decls(
                    w,
                    at as nat,
                    new_var_decl_models(v@),
                    sv_fields(lo@),
                    entries(fr@),
                    entries(amb@),
                    leaf_infos(ls@),
                    g,
                    i as int
                ) == f_with_decls(w, at as nat, new_var_decl_models(v@), sv_fields(lo@), entries(fr0@), entries(amb0@), leaf_infos(ls0@), g, 0),
            decreases v.len() - i,
        {
            proof {
                reveal_with_fuel(f_with_decls, 1);
                assert(new_var_decl_models(v@)[i as int] == v@[i as int].model());
            }
            let ghost dm = v@[i as int].model();
            let (f1, a1, l1) = match self.with_groups(at, &v[i].decls, v[i].class, lo, fr, amb, ls, k) {
                Ok(x) => x,
                Err(e) => {
                    return Err(e);
                },
            };
            fr = f1;
            amb = a1;
            ls = l1;
            i += 1;
            continue;

        }
        proof {
            reveal_with_fuel(f_with_decls, 1);
        }
        Ok((fr, amb, ls))
    }

    /// Added variables of one class.
    fn with_groups(
        &self,
        at: usize,
        v: &Vec<VarDecl>,
        class: VarClass,
        lo: &Vec<(String, SVal)>,
        fr0: Vec<(String, VarEntry)>,
        amb0: Vec<(String, VarEntry)>,
        ls0: Vec<LeafInfo>,
        k: usize
    ) -> (res: Result<(Vec<(String, VarEntry)>, Vec<(String, VarEntry)>, Vec<LeafInfo>), CheckError>)
        ensures
            match (
                res,
                f_with_groups(
                    self.model(),
                    at as nat,
                    var_decl_models(v@),
                    class,
                    sv_fields(lo@),
                    entries(fr0@),
                    entries(amb0@),
                    leaf_infos(ls0@),
                    build(self.model(), k as nat),
                    0
                )
            ) {
                (Ok(v), Ok(m)) => entries(v.0@) == m.0 && entries(v.1@) == m.1 && leaf_infos(v.2@) == m.2,
                (Err(e), Err(f)) => e.model() == f,
                _ => false,
            },
        decreases k, 5nat,
    {
        let ghost w = self.model();
        let ghost g = build(w, k as nat);
        let mut fr = fr0;
        let mut amb = amb0;
        let mut ls = ls0;
        let mut i: usize = 0;
        while i < v.len()
            invariant
                i <= v@.len(),
                w == self.model(),
                g == build(w, k as nat),
                f_with_groups(
                    w,
                    at as nat,
                    var_decl_models(v@),
                    class,
                    sv_fields(lo@),
                    entries(fr@),
                    entries(amb@),
                    leaf_infos(ls@),
                    g,
                    i as int
                ) == f_with_groups(w, at as nat, var_decl_models(v@), class, sv_fields(lo@), entries(fr0@), entries(amb0@), leaf_infos(ls0@), g, 0),
            decreases v.len() - i,
        {
            proof {
                reveal_with_fuel(f_with_groups, 1);
                assert(var_decl_models(v@)[i as int] == v@[i as int].model());
            }
            let idle: Vec<(usize, String)> = Vec::new();
            proof { assert(busy_views(idle@) =~= Seq::empty()); }
            let ghost dm = v@[i as int].model();
            let t = match self.resolve_ctype(at, &v[i].ty, lo, &idle, DEPTH) {
                Ok(x) => x,
                Err(e) => {
                    return Err(e);
                },
            };
            let (f1, a1, l1) = match self.with_names(at, &v[i].names, &t, class, v[i].span, fr, amb, ls, k) {
                Ok(x) => x,
                Err(e) => {
                    return Err(e);
                },
            };
            fr = f1;
            amb = a1;
            ls = l1;
            i += 1;
            continue;

        }
        proof {
            reveal_with_fuel(f_with_groups, 1);
        }
        Ok((fr, amb, ls))
    }

    /// Added variables of one class and type.
    fn with_names(
        &self,
        at: usize,
        v: &Vec<Ident>,
        t: &CType,
        class: VarClass,
        span: Span,
        fr0: Vec<(String, VarEntry)>,
        amb0: Vec<(String, VarEntry)>,
        ls0: Vec<LeafInfo>,
        k: usize
    ) -> (res: Result<(Vec<(String, VarEntry)>, Vec<(String, VarEntry)>, Vec<LeafInfo>), CheckError>)
        ensures
            match (
                res,
                f_with_names(
                    self.model(),
                    at as nat,
                    ident_models(v@),
                    t.model(),
                    class,
                    span,
                    entries(fr0@),
                    entries(amb0@),
                    leaf_infos(ls0@),
                    build(self.model(), k as nat),
                    0
                )
            ) {
                (Ok(v), Ok(m)) => entries(v.0@) == m.0 && entries(v.1@) == m.1 && leaf_infos(v.2@) == m.2,
                (Err(e), Err(f)) => e.model() == f,
                _ => false,
            },
        decreases k, 3nat,
    {
        let ghost w = self.model();
        let ghost g = build(w, k as nat);
        let mut fr = fr0;
        let mut amb = amb0;
        let mut ls = ls0;
        let mut i: usize = 0;
        while i < v.len()
            invariant
                i <= v@.len(),
                w == self.model(),
                g == build(w, k as nat),
                f_with_names(
                    w,
                    at as nat,
                    ident_models(v@),
                    t.model(),
                    class,
                    span,
                    entries(fr@),
                    entries(amb@),
                    leaf_infos(ls@),
                    g,
                    i as int
                ) == f_with_names(w, at as nat, ident_models(v@), t.model(), class, span, entries(fr0@), entries(amb0@), leaf_infos(ls0@), g, 0),
            decreases v.len() - i,
        {
            proof {
                reveal_with_fuel(f_with_names, 1);
                assert(ident_models(v@)[i as int] == v@[i as int].model());
            }
            let ghost nm = v@[i as int].model();
            match opt_copy(find_ambient(&amb, &v[i].name)) {
                Some(x) => {
                    amb = add_var(amb, v[i].name.clone(), x.copy());
                    fr = add_var(fr, v[i].name.clone(), x);
                    i += 1;
                    continue;
                },
                None => {
                    let (v1, ls1) = match self.alloc_skel(at, &v[i].name, t, class, span, ls, k) {
                        Ok(x) => x,
                        Err(e) => {
                            return Err(e);
                        },
                    };
                    let x = VarEntry { class, ctype: t.copy(), skel: v1 };
                    amb = add_var(amb, v[i].name.clone(), x.copy());
                    fr = add_var(fr, v[i].name.clone(), x);
                    ls = ls1;
                    i += 1;
                    continue;
                },
            }

        }
        proof {
            reveal_with_fuel(f_with_names, 1);
        }
        Ok((fr, amb, ls))
    }

    fn alloc_skel(
        &self,
        at: usize,
        path: &String,
        t: &CType,
        class: VarClass,
        span: Span,
        ls: Vec<LeafInfo>,
        k: usize
    ) -> (res: Result<(SVal, Vec<LeafInfo>), CheckError>)
        ensures
            match (
                res,
                (build(self.model(), k as nat).alloc)(at as nat, path@, t.model(), class, span, leaf_infos(ls@))
            ) {
                (Ok(v), Ok(m)) => v.0.model() == m.0 && leaf_infos(v.1@) == m.1,
                (Err(e), Err(f)) => e.model() == f,
                _ => false,
            },
        decreases k, 0nat,
    {
        proof {
            build_rules(self.model(), k as nat);
        }
        if k == 0 {
            return Err(CheckError::Deep);
        }
        self.allocated(at, path, t, class, span, ls, k - 1)
    }

    fn subtype_constraint(
        &self,
        at: usize,
        x: &Type,
        skel: &SVal,
        span: Span,
        lo: &Vec<(String, SVal)>,
        k: usize
    ) -> (res: Result<Option<FExpr>, CheckError>)
        ensures
            match (
                res,
                (build(self.model(), k as nat).subtype)(
                    at as nat,
                    x.model(),
                    skel.model(),
                    span,
                    sv_fields(lo@)
                )
            ) {
                (Ok(v), Ok(m)) => opt_fe(v) == m,
                (Err(e), Err(f)) => e.model() == f,
                _ => false,
            },
        decreases k, 0nat,
    {
        proof {
            build_rules(self.model(), k as nat);
        }
        if k == 0 {
            return Err(CheckError::Deep);
        }
        self.subtype_of(at, x, skel, span, lo, k - 1)
    }

    fn elab_definition(
        &self,
        at: usize,
        x: &Definition,
        next: bool,
        lo: &Vec<(String, SVal)>,
        k: usize
    ) -> (res: Result<FExpr, CheckError>)
        ensures
            match (res, (build(self.model(), k as nat).def)(at as nat, x.model(), next, sv_fields(lo@))) {
                (Ok(v), Ok(m)) => v.model() == m,
                (Err(e), Err(f)) => e.model() == f,
                _ => false,
            },
        decreases k, 0nat,
    {
        proof {
            build_rules(self.model(), k as nat);
        }
        if k == 0 {
            return Err(CheckError::Deep);
        }
        self.def_body(at, x, next, lo, k - 1)
    }

    fn definition_lhs_leaves(
        &self,
        at: usize,
        x: &Definition,
        lo: &Vec<(String, SVal)>,
        acc: Vec<LeafId>,
        k: usize
    ) -> (res: Result<Vec<LeafId>, CheckError>)
        ensures
            match (res, (build(self.model(), k as nat).heads)(at as nat, x.model(), sv_fields(lo@), acc@)) {
                (Ok(v), Ok(m)) => v@ == m,
                (Err(e), Err(f)) => e.model() == f,
                _ => false,
            },
        decreases k, 0nat,
    {
        proof {
            build_rules(self.model(), k as nat);
        }
        if k == 0 {
            return Err(CheckError::Deep);
        }
        self.heads_of(at, x, lo, acc, k - 1)
    }

    fn expand_command(
        &self,
        at: usize,
        x: &SomeCommand,
        next: bool,
        lo: &Vec<(String, SVal)>,
        prov: &String,
        acc: Vec<FlatCmd>,
        k: usize
    ) -> (res: Result<Vec<FlatCmd>, CheckError>)
        ensures
            match (
                res,
                (build(self.model(), k as nat).cmd)(
                    at as nat,
                    x.model(),
                    next,
                    sv_fields(lo@),
                    cmd_models(acc@)
                )
            ) {
                (Ok(v), Ok(m)) => cmd_models(v@) == m,
                (Err(e), Err(f)) => e.model() == f,
                _ => false,
            },
        decreases k, 0nat,
    {
        proof {
            build_rules(self.model(), k as nat);
        }
        if k == 0 {
            return Err(CheckError::Deep);
        }
        self.cmd_body(at, x, next, lo, prov, acc, k - 1)
    }

    fn elab(
        &self,
        at: usize,
        x: &Module,
        lo: &Vec<(String, SVal)>,
        amb: Vec<(String, VarEntry)>,
        prov: &String,
        ls: Vec<LeafInfo>,
        k: usize
    ) -> (res: Result<(Elab, Vec<(String, VarEntry)>, Vec<LeafInfo>), CheckError>)
        ensures
            match (
                res,
                (build(self.model(), k as nat).module)(
                    at as nat,
                    x.model(),
                    sv_fields(lo@),
                    entries(amb@),
                    leaf_infos(ls@)
                )
            ) {
                (Ok(v), Ok(m)) => v.0.model() == m.0 && entries(v.1@) == m.1 && leaf_infos(v.2@) == m.2,
                (Err(e), Err(f)) => e.model() == f,
                _ => false,
            },
        decreases k, 0nat,
    {
        proof {
            build_rules(self.model(), k as nat);
        }
        if k == 0 {
            return Err(CheckError::Deep);
        }
        self.module_body(at, x, lo, amb, prov, ls, k - 1)
    }
}

/// The content of a flat module, with its variables.
pub ghost struct FlatV {
    pub sys: Sys,
    pub leaves: Seq<LeafV>,
    pub vars: VarsV,
    pub controlled: Set<LeafId>,
    pub components: Parts,
}

/// The contents of the variables of a flat module.
pub open spec fn top_vars(v: Seq<TopVar>) -> VarsV {
    Seq::new(
        v.len(),
        |i: int| (v[i].name@, VarE { class: v[i].class, ctype: v[i].ctype.model(), skel: v[i].skel.model() }),
    )
}

impl FlatModule {
    /// The content, with the variables.
    pub open spec fn content(&self) -> FlatV {
        FlatV {
            sys: self.sys(),
            leaves: leaf_infos(self.leaves@),
            vars: top_vars(self.vars@),
            controlled: self.controlled@,
            components: parts_of(self.components@),
        }
    }
}

/// The flat module of an elaborated one.
pub open spec fn flat_of(e: ElabV, ls: Seq<LeafV>) -> FlatV {
    FlatV {
        sys: Sys {
            leaves: Seq::new(ls.len(), |i: int| ls[i].1),
            invariants: e.invariants,
            init_defs: e.init_defs,
            init_choices: e.init_choices,
            trans_defs: e.trans_defs,
            trans: e.trans,
        },
        leaves: ls,
        vars: e.vars,
        controlled: e.controlled.to_set(),
        components: Seq::new(e.parts.len(), |i: int| (e.parts[i].0.to_set(), e.parts[i].1.to_set())),
    }
}

/// The flat module that a module of an instance stands for.
pub open spec fn elaborated(w: World, at: nat, m: ModuleV) -> CR<FlatV> {
    match (build(w, usize::MAX as nat).module)(at, m, Seq::empty(), Seq::empty(), Seq::empty()) {
        Ok(r) => Ok(flat_of(r.0, r.2)),
        Err(f) => Err(f),
    }
}

/// The formula that an expression over state variables stands for.
pub open spec fn lowered(w: World, at: nat, x: ExprV, vars: VarsV) -> CR<TF> {
    match (evaluation(w, DEPTH as nat).eval)(at, x, state_locals(Seq::empty(), vars, 0)) {
        Ok(v) => match formula(v) {
            Some(f) => Ok(f),
            None => Err(fault(w, at, x.span, "boolean expression expected"@)),
        },
        Err(f) => Err(f),
    }
}

/// The assertion of a name in an instance.
pub open spec fn assertion_at(w: World, at: nat, name: Seq<char>) -> Option<AssertionExprV> {
    match symbol_at(w, at, name) {
        Some(EntryV::Assertion(_f, b)) => Some(b),
        _ => None,
    }
}

/// The name of an instance's context.
pub open spec fn context_at(w: World, at: nat) -> Seq<char> {
    if at < w.insts.len() {
        w.insts[at as int].name
    } else {
        Seq::empty()
    }
}

/// The message for an assertion that is not declared.
pub open spec fn no_assertion(w: World, at: nat, name: Seq<char>) -> Seq<char> {
    "Assertion \""@ + name + "\" was not found in context \""@ + context_at(w, at) + "\"."@
}

fn set_of(ids: &Vec<LeafId>) -> (r: BTreeSet<LeafId>)
    ensures
        r@ == ids@.to_set(),
{
    let mut r: BTreeSet<LeafId> = BTreeSet::new();
    let mut i: usize = 0;
    assert(r@ =~= ids@.take(0).to_set());
    while i < ids.len()
        invariant
            i <= ids@.len(),
            r@ == ids@.take(i as int).to_set(),
        decreases ids.len() - i,
    {
        let ghost before = r@;
        r.insert(ids[i]);
        proof {
            let a = ids@.take(i as int);
            let b = ids@.take(i + 1);
            assert(b =~= a.push(ids@[i as int]));
            assert forall|l: LeafId| b.to_set().contains(l) <==> before.insert(ids@[i as int]).contains(l) by {
                if b.contains(l) {
                    let j = choose|j: int| 0 <= j < b.len() && b[j] == l;
                    if j < i {
                        assert(a[j] == l);
                    }
                }
                if a.contains(l) {
                    let j = choose|j: int| 0 <= j < a.len() && a[j] == l;
                    assert(b[j] == l);
                }
                assert(b[i as int] == ids@[i as int]);
            }
            assert(r@ =~= b.to_set());
        }
        i += 1;
    }
    assert(ids@.take(i as int) =~= ids@);
    r
}

fn list_components(ps: &Vec<(Vec<LeafId>, Vec<LeafId>)>) -> (r: Vec<Component>)
    ensures
        r@.len() == ps@.len(),
        forall|i: int|
            0 <= i < r@.len() ==> (#[trigger] r@[i]).owned@ == ps@[i].0@.to_set() && r@[i].reads@ == ps@[i].1@.to_set(),
{
    let mut r: Vec<Component> = Vec::new();
    while r.len() < ps.len()
        invariant
            r@.len() <= ps@.len(),
            forall|i: int|
                0 <= i < r@.len() ==> (#[trigger] r@[i]).owned@ == ps@[i].0@.to_set() && r@[i].reads@
                    == ps@[i].1@.to_set(),
        decreases ps.len() - r.len(),
    {
        let i: usize = r.len();
        r.push(Component { owned: set_of(&ps[i].0), reads: set_of(&ps[i].1) });
    }
    r
}

fn list_top_vars(vs: &Vec<(String, VarEntry)>) -> (r: Vec<TopVar>)
    ensures
        top_vars(r@) == entries(vs@),
{
    let mut r: Vec<TopVar> = Vec::new();
    let mut i: usize = 0;
    while i < vs.len()
        invariant
            i <= vs@.len(),
            r@.len() == i,
            forall|j: int|
                0 <= j < i ==> (#[trigger] r@[j]).name@ == vs@[j].0@ && r@[j].class == vs@[j].1.class
                    && r@[j].ctype.model() == vs@[j].1.ctype.model() && r@[j].skel.model() == vs@[j].1.skel.model(),
        decreases vs.len() - i,
    {
        r.push(
            TopVar {
                name: vs[i].0.clone(),
                class: vs[i].1.class,
                ctype: vs[i].1.ctype.copy(),
                skel: vs[i].1.skel.copy(),
            },
        );
        i += 1;
    }
    assert(top_vars(r@) =~= entries(vs@));
    r
}

fn list_entries(vs: &Vec<TopVar>) -> (r: Vec<(String, VarEntry)>)
    ensures
        entries(r@) == top_vars(vs@),
{
    let mut r: Vec<(String, VarEntry)> = Vec::new();
    let mut i: usize = 0;
    while i < vs.len()
        invariant
            i <= vs@.len(),
            r@.len() == i,
            forall|j: int|
                0 <= j < i ==> (#[trigger] r@[j]).0@ == vs@[j].name@ && r@[j].1.class == vs@[j].class
                    && r@[j].1.ctype.model() == vs@[j].ctype.model() && r@[j].1.skel.model() == vs@[j].skel.model(),
        decreases vs.len() - i,
    {
        let e = VarEntry { class: vs[i].class, ctype: vs[i].ctype.copy(), skel: vs[i].skel.copy() };
        r.push((vs[i].name.clone(), e));
        i += 1;
    }
    assert(entries(r@) =~= top_vars(vs@));
    r
}

impl<'e> Flattener<'e> {
    /// A flattener over the checked instances of an environment.
    pub fn new(env: &'e SalEnv) -> (r: Flattener<'e>)
        ensures
            r.model() == (World {
                insts: inst_views(env.instances@),
                lib: context_views(env.lib@),
                here: 0,
            }),
    {
        Flattener { insts: &env.instances, lib: &env.lib }
    }

    /// Flattens a module of an instance.
    pub fn flatten_module(&self, at: usize, m: &Module) -> (r: Result<FlatModule, SalError>)
        ensures
            match (r, elaborated(self.model(), at as nat, m.model())) {
                (Ok(x), Ok(y)) => x.content() == y && x.sys() == y.sys,
                (Err(e), Err(f)) => reports(f, e),
                _ => false,
            },
    {
        let lo: Vec<(String, SVal)> = Vec::new();
        let amb: Vec<(String, VarEntry)> = Vec::new();
        let ls: Vec<LeafInfo> = Vec::new();
        let prov = own("");
        proof {
            assert(sv_fields(lo@) =~= Seq::empty());
            assert(entries(amb@) =~= Seq::empty());
            assert(leaf_infos(ls@) =~= Seq::empty());
        }
        match self.elab(at, m, &lo, amb, &prov, ls, usize::MAX) {
            Ok((e, _amb, ls)) => {
                let ghost em = e.model();
                let ghost lm = leaf_infos(ls@);
                let vars = list_top_vars(&e.vars);
                let controlled = set_of(&e.controlled);
                let components = list_components(&e.parts);
                let Elab { vars: _v, invariants, init_defs, init_choices, trans_defs, trans, controlled: _c, def_next: _d, parts: _p } =
                    e;
                let r = FlatModule {
                    leaves: ls,
                    vars,
                    invariants,
                    init_defs,
                    init_choices,
                    trans_defs,
                    trans,
                    controlled,
                    components,
                };
                proof {
                    assert(r.sys().leaves =~= flat_of(em, lm).sys.leaves);
                    assert(r.content().components =~= flat_of(em, lm).components);
                    assert(r.sys() == flat_of(em, lm).sys);
                }
                Ok(r)
            },
            Err(f) => Err(report(f)),
        }
    }

    /// The values of a flat module's state variables, now and next.
    pub fn state_ctx(&self, flat: &FlatModule) -> (r: Vec<(String, SVal)>)
        ensures
            sv_fields(r@) == state_locals(Seq::empty(), flat.content().vars, 0),
    {
        let lo: Vec<(String, SVal)> = Vec::new();
        assert(sv_fields(lo@) =~= Seq::empty());
        add_state(&lo, &list_entries(&flat.vars))
    }

    fn lower(&self, at: usize, x: &Expr, flat: &FlatModule) -> (r: Result<TFormula, SalError>)
        ensures
            match (r, lowered(self.model(), at as nat, x.model(), flat.content().vars)) {
                (Ok(f), Ok(g)) => f.model() == g,
                (Err(e), Err(f)) => reports(f, e),
                _ => false,
            },
    {
        let ghost xm = x.model();
        let lo = self.state_ctx(flat);
        match self.eval(at, x, &lo, DEPTH) {
            Ok(v) => match to_formula(v) {
                Ok(f) => Ok(f),
                Err(m) => Err(report(self.fault(at, x.span, m))),
            },
            Err(f) => Err(report(f)),
        }
    }

    fn find_assertion(&self, at: usize, name: &String) -> (r: Result<&'e AssertionExpr, SalError>)
        ensures
            match (r, assertion_at(self.model(), at as nat, name@)) {
                (Ok(b), Some(c)) => b.model() == c,
                (Err(e), None) => e matches SalError::Global(m) && m@ == no_assertion(
                    self.model(),
                    at as nat,
                    name@
                ),
                _ => false,
            },
    {
        match self.find_symbol_at(at, name) {
            Some(Entry::Assertion(_f, b)) => Ok(b),
            _ => {
                let mut m = text3("Assertion \"", name.as_str(), "\" was not found in context \"");
                let ghost m0 = m@;
                if at < self.insts.len() {
                    assert(self.model().insts[at as int] == self.insts@[at as int].model());
                    put(&mut m, self.insts[at].name.as_str());
                }
                put(&mut m, "\".");
                assert(m@ =~= no_assertion(self.model(), at as nat, name@));
                Err(SalError::Global(m))
            },
        }
    }

    /// Flattens an assertion of an instance: its module, and the formula over the module's variables.
    pub fn flatten_assertion(&self, at: usize, assertion: &String) -> (r: Result<(FlatModule, TFormula), SalError>)
        ensures
            match assertion_at(self.model(), at as nat, assertion@) {
                None => r matches Err(SalError::Global(m)) && m@ == no_assertion(
                    self.model(),
                    at as nat,
                    assertion@
                ),
                Some(AssertionExprV::Implements { concrete, abstract_ }) => r matches Err(SalError::Global(m)) && m@
                    == "IMPLEMENTS assertions are not supported."@,
                Some(AssertionExprV::Models { module, formula }) => match elaborated(
                    self.model(),
                    at as nat,
                    module,
                ) {
                    Err(f) => r matches Err(e) && reports(f, e),
                    Ok(y) => match lowered(self.model(), at as nat, formula, y.vars) {
                        Err(f) => r matches Err(e) && reports(f, e),
                        Ok(g) => r matches Ok(x) && x.0.content() == y && x.0.sys() == y.sys && x.1.model() == g,
                    },
                },
            },
    {
        match self.find_assertion(at, assertion) {
            Err(e) => Err(e),
            Ok(b) => match b {
                AssertionExpr::Implements { concrete: _c, abstract_: _a } => Err(
                    SalError::Global(own("IMPLEMENTS assertions are not supported.")),
                ),
                AssertionExpr::Models { module, formula } => match self.flatten_module(at, module) {
                    Err(e) => Err(e),
                    Ok(flat) => match self.lower(at, formula, &flat) {
                        Err(e) => Err(e),
                        Ok(f) => Ok((flat, f)),
                    },
                },
            },
        }
    }

    /// The formula of another assertion, over the variables of a flat module.
    pub fn lower_assertion_in(
        &self,
        at: usize,
        assertion: &String,
        flat: &FlatModule
    ) -> (r: Result<TFormula, SalError>)
        ensures
            match assertion_at(self.model(), at as nat, assertion@) {
                None => r matches Err(SalError::Global(m)) && m@ == no_assertion(
                    self.model(),
                    at as nat,
                    assertion@
                ),
                Some(AssertionExprV::Implements { concrete, abstract_ }) => r matches Err(SalError::Global(m)) && m@
                    == "IMPLEMENTS assertions are not supported."@,
                Some(AssertionExprV::Models { module, formula }) => match lowered(
                    self.model(),
                    at as nat,
                    formula,
                    flat.content().vars,
                ) {
                    Err(f) => r matches Err(e) && reports(f, e),
                    Ok(g) => r matches Ok(x) && x.model() == g,
                },
            },
    {
        match self.find_assertion(at, assertion) {
            Err(e) => Err(e),
            Ok(b) => match b {
                AssertionExpr::Implements { concrete: _c, abstract_: _a } => Err(
                    SalError::Global(own("IMPLEMENTS assertions are not supported.")),
                ),
                AssertionExpr::Models { module: _m, formula } => self.lower(at, formula, flat),
            },
        }
    }
}

} // verus!
