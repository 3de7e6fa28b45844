//! Name resolution and type checking.

use crate::ast::{
    access_models, actual_models, base_decl_models, constructor_models, def_or_command_models, definition_models,
    expr_models, field_decl_models, ident_expr_pairs, ident_ident_pairs, ident_models, let_decl_models,
    lhs_lhs_pairs, new_var_decl_models, rhs_expr, rhs_parts, rhs_selection, some_command_models, type_models,
    var_decl_models, Access, Actual, AssertionExpr, BaseDecl, BaseModule, BinOp, Constructor, ContextName, CtxParam,
    Decl, DefOrCommand, Definition, Expr, ExprKind, FieldDecl, GuardedCommand, Ident, LetDecl, Lhs, Module,
    ModuleKind, Name, NewVarDecl, Rhs, SalContext, SetPred, SomeCommand, Type, TypeDef, TypeKind, UnOp, VarClass,
    VarDecl,
};
use crate::dup::dup_var_decls;
use crate::env::{
    add_binding, append_fields, append_same, append_vars, array_locals, bind, bind_all, bind_first, bind_state,
    binding_views, binds, context_views, copy_vars, count_message, dup_opt_expr, dup_type_def, find_field,
    find_instance, find_source, find_symbol, find_type, find_var, formal_views, fun_type, insert_field, inst_views,
    instance_key, is_any, list_constructed, list_consts, list_formals, list_parts, list_renamed, list_scalar,
    list_type_params, no_entries, one_entry, opt_type_def, pack, pair_type, rename_var, renamed, replace_var,
    string_type, symbol_views, text3, text5, type_id, types_only, var_views, Bind, Binding, Entry, Instance,
    StateVar,
};
use crate::judgement::{
    alias, c_access_step, c_accessed, c_actual, c_actual_type, c_actuals, c_added, c_agreeing, c_agreeing_with,
    c_arguments, c_assertion, c_assigned, c_base, c_binary, c_bound, c_cmd_body, c_cmds, c_const_head,
    c_const_value, c_constructor, c_context, c_decl, c_declare, c_def_body, c_defs, c_elements, c_entries, c_exprs,
    c_fields, c_fields_of, c_found, c_given_type, c_given_value, c_groups, c_guard, c_guarded, c_infer,
    c_infer_binder, c_infer_part, c_infer_rest, c_infer_set, c_infer_use, c_items, c_lets, c_lookup, c_matched,
    c_matched_one, c_module_args, c_module_decl, c_module_kind, c_multi, c_name_type, c_param, c_predicate,
    c_rename_one, c_renames, c_sections, c_signature, c_simple, c_sized, c_state_decls, c_type_decl, c_type_kind,
    c_types, c_variables, class_merge, cyclic, declared, fun_parts, index_parts, is_logical, is_order, judge,
    judge_rules, lambda_of, local, merged, range_at, reclassed, required, semantic, symbol_at, symbols_of, World,
    CEV,
};
use crate::parser::opt_expr;
use crate::span::Span;
use crate::text::own;
use crate::types::{agrees, sem_fields, sem_models, SemType};
use vstd::prelude::*;

verus! {

/// Why a check does not succeed.
#[derive(Debug)]
pub enum CheckError {
    /// An error at a place of a context.
    Semantic(String, Span, String),
    /// The context of this name is not known.
    Missing(String),
    /// An instance of a known context has to be checked first: the number of the context, the key
    /// of the instance, and what is given for its parameters.
    Need(usize, String, Vec<(String, Binding)>),
    /// The syntax is nested more deeply than can be followed.
    Deep,
}

impl CheckError {
    /// The content.
    pub open spec fn model(&self) -> CEV {
        match self {
            CheckError::Semantic(c, s, m) => CEV::Semantic(c@, *s, m@),
            CheckError::Missing(n) => CEV::Missing(n@),
            CheckError::Need(d, key, types) => CEV::Need(*d as nat, key@, binding_views(types@)),
            CheckError::Deep => CEV::Deep,
        }
    }
}

fn find_local(scope: &Vec<Bind>, n: &Name) -> (r: Option<SemType>)
    ensures
        match (r, local(binds(scope@), n.model())) {
            (Some(e), Some(f)) => e.model() == f,
            (None, None) => true,
            _ => false,
        },
{
    let ghost m = n.id.model();
    if n.ctx.is_none() {
        find_type(scope, &n.id.name, false)
    } else {
        None
    }
}

fn make_lambda(args: &Vec<VarDecl>, value: &Option<Expr>) -> (r: Option<Expr>)
    ensures
        opt_expr(r) == lambda_of(var_decl_models(args@), opt_expr(*value)),
{
    match value {
        Some(v) => {
            let r = Expr {
                kind: ExprKind::Lambda(dup_var_decls(args), Box::new(v.dup())),
                span: v.span,
                parens: 0,
            };
            let ghost vm = v.model();
            let ghost km = r.kind.model();
            Some(r)
        },
        None => None,
    }
}

fn logical(op: BinOp) -> (r: bool)
    ensures
        r == is_logical(op),
{
    op == BinOp::And || op == BinOp::Or || op == BinOp::Xor || op == BinOp::Implies || op == BinOp::Iff
}

fn order(op: BinOp) -> (r: bool)
    ensures
        r == is_order(op),
{
    op == BinOp::Lt || op == BinOp::Le || op == BinOp::Gt || op == BinOp::Ge
}

pub(crate) fn is_unbounded(x: &ExprKind) -> (r: bool)
    ensures
        r == (x.model() is Unbounded),
{
    match x {
        ExprKind::Unbounded => true,
        _ => false,
    }
}

fn index_of(t: &SemType) -> (r: Option<(SemType, SemType)>)
    ensures
        match (r, index_parts(t.model())) {
            (Some(a), Some(b)) => a.0.model() == b.0 && a.1.model() == b.1,
            (None, None) => true,
            _ => false,
        },
{
    match t {
        SemType::Array(a, b) => Some(((**a).clone(), (**b).clone())),
        SemType::Fun(a, b) => Some(((**a).clone(), (**b).clone())),
        _ => None,
    }
}

fn fun_of(t: &SemType) -> (r: Option<(SemType, SemType)>)
    ensures
        match (r, fun_parts(t.model())) {
            (Some(a), Some(b)) => a.0.model() == b.0 && a.1.model() == b.1,
            (None, None) => true,
            _ => false,
        },
{
    match t {
        SemType::Fun(a, b) => Some(((**a).clone(), (**b).clone())),
        _ => None,
    }
}

fn merge_class(a: VarClass, b: VarClass) -> (r: VarClass)
    ensures
        r == class_merge(a, b),
{
    if b == VarClass::Output || (a == VarClass::Input && b == VarClass::Global) {
        b
    } else {
        a
    }
}

/// Checks what stands in one instance of a context.
pub struct Checker<'e> {
    /// The instances; the first is the prelude.
    pub insts: &'e Vec<Instance>,
    /// The known contexts.
    pub lib: &'e Vec<SalContext>,
    /// The instance that is being checked.
    pub here: usize,
}

impl<'e> Checker<'e> {
    /// Where it checks.
    pub open spec fn model(&self) -> World {
        World { insts: inst_views(self.insts@), lib: context_views(self.lib@), here: self.here as nat }
    }

    fn fail(&self, span: Span, msg: String) -> (r: CheckError)
        ensures
            r.model() == semantic(self.model(), span, msg@),
    {
        if self.here < self.insts.len() {
            assert(self.model().insts[self.here as int] == self.insts@[self.here as int].model());
            CheckError::Semantic(self.insts[self.here].name.clone(), span, msg)
        } else {
            let name = own("");
            proof {
                reveal_strlit("");
                assert(name@ =~= Seq::empty());
            }
            CheckError::Semantic(name, span, msg)
        }
    }

    fn cycle(&self, id: usize, d: usize) -> (r: CheckError)
        requires
            id < self.insts@.len(),
            d < self.lib@.len(),
        ensures
            r.model() == cyclic(self.model(), id as nat, d as nat),
    {
        assert(self.model().insts[id as int] == self.insts@[id as int].model());
        assert(self.model().lib[d as int] == self.lib@[d as int].model());
        CheckError::Semantic(
            self.insts[id].name.clone(),
            self.lib[d].span,
            text3("Cyclic dependency on context \"", self.insts[id].name.as_str(), "\"."),
        )
    }

    fn find_at(&self, id: usize, name: &String) -> (r: Option<&'e Entry>)
        ensures
            match (r, symbol_at(self.model(), id as nat, name@)) {
                (Some(e), Some(f)) => e.model() == f,
                (None, None) => true,
                _ => false,
            },
    {
        if id < self.insts.len() {
            assert(self.model().insts[id as int] == self.insts@[id as int].model());
            find_symbol(&self.insts[id].symbols, name)
        } else {
            None
        }
    }

    fn find_range(&self, name: &String, plain: bool) -> (r: SemType)
        ensures
            r.model() == range_at(self.model(), name@, plain),
    {
        match self.find_at(self.here, name) {
            Some(Entry::Const(t, _v)) => {
                if plain {
                    t.clone()
                } else {
                    match t {
                        SemType::Fun(_a, b) => (**b).clone(),
                        _ => SemType::Any,
                    }
                }
            },
            _ => SemType::Any,
        }
    }

    fn import(&self, id: usize, renames: &Vec<(Ident, Ident)>) -> (r: Vec<(String, Entry)>)
        ensures
            symbol_views(r@) == renamed(symbols_of(self.model(), id as nat), ident_ident_pairs(renames@)),
    {
        if id < self.insts.len() {
            assert(self.model().insts[id as int] == self.insts@[id as int].model());
            list_renamed(&self.insts[id].symbols, renames)
        } else {
            let r = no_entries();
            assert(renamed(Seq::empty(), ident_ident_pairs(renames@)) =~= Seq::empty());
            r
        }
    }

    fn find_alias(&self, cn: &ContextName) -> (r: Option<usize>)
        ensures
            match (r, alias(self.model(), cn.model())) {
                (Some(i), Some(j)) => i == j,
                (None, None) => true,
                _ => false,
            },
    {
        let ghost m = cn.name.model();
        if cn.actuals.len() == 0 {
            match self.find_at(self.here, &cn.name.name) {
                Some(Entry::Ctx(id)) => Some(*id),
                _ => None,
            }
        } else {
            None
        }
    }

    fn require(&self, span: Span, actual: &SemType, expected: &SemType) -> (r: Result<(), CheckError>)
        ensures
            match (r, required(self.model(), span, actual.model(), expected.model())) {
                (Ok(_), Ok(_)) => true,
                (Err(e), Err(f)) => e.model() == f,
                _ => false,
            },
    {
        if actual.compatible(expected) {
            Ok(())
        } else {
            let a = expected.text();
            let b = actual.text();
            Err(self.fail(span, text5("Type mismatch: expected ", a.as_str(), ", found ", b.as_str(), ".")))
        }
    }

    fn merge_states(&self, span: Span, a0: Vec<StateVar>, b: &Vec<StateVar>) -> (r: Result<
        Vec<StateVar>,
        CheckError,
    >)
        ensures
            match (r, merged(self.model(), span, var_views(a0@), var_views(b@), 0)) {
                (Ok(v), Ok(m)) => var_views(v@) == m,
                (Err(e), Err(f)) => e.model() == f,
                _ => false,
            },
    {
        let ghost w = self.model();
        let mut a = a0;
        let mut i: usize = 0;
        while i < b.len()
            invariant
                i <= b@.len(),
                w == self.model(),
                merged(w, span, var_views(a@), var_views(b@), i as int) == merged(
                    w,
                    span,
                    var_views(a0@),
                    var_views(b@),
                    0,
                ),
            decreases b.len() - i,
        {
            proof {
                reveal_with_fuel(merged, 1);
                assert(var_views(b@)[i as int] == b@[i as int].model());
            }
            let ghost old_a = var_views(a@);
            match find_var(&a, &b[i].name) {
                None => {
                    let ghost s = a@;
                    a.push(b[i].clone());
                    assert(var_views(a@) =~= old_a.push(b@[i as int].model()));
                },
                Some(p) => {
                    assert(old_a[p as int] == a@[p as int].model());
                    if a[p].class == VarClass::Local && b[i].class == VarClass::Local {
                        let t = pair_type(a[p].ty.clone(), b[i].ty.clone());
                        let v = StateVar { name: a[p].name.clone(), class: a[p].class, ty: t };
                        a.set(p, v);
                        assert(var_views(a@) =~= old_a.update(p as int, v.model()));
                    } else if !a[p].ty.compatible(&b[i].ty) {
                        return Err(
                            self.fail(
                                span,
                                text3(
                                    "Variable \"",
                                    b[i].name.as_str(),
                                    "\" is declared with incompatible types in composed modules.",
                                ),
                            ),
                        );
                    } else {
                        let c = merge_class(a[p].class, b[i].class);
                        let v = StateVar { name: a[p].name.clone(), class: c, ty: a[p].ty.clone() };
                        a.set(p, v);
                        assert(var_views(a@) =~= old_a.update(p as int, v.model()));
                    }
                },
            }
            i += 1;
        }
        proof {
            reveal_with_fuel(merged, 1);
        }
        Ok(a)
    }

    fn reclass(&self, ids: &Vec<Ident>, vs0: Vec<StateVar>, class: VarClass) -> (r: Result<
        Vec<StateVar>,
        CheckError,
    >)
        ensures
            match (r, reclassed(self.model(), ident_models(ids@), var_views(vs0@), class, 0)) {
                (Ok(v), Ok(m)) => var_views(v@) == m,
                (Err(e), Err(f)) => e.model() == f,
                _ => false,
            },
    {
        let ghost w = self.model();
        let mut vs = vs0;
        let mut i: usize = 0;
        while i < ids.len()
            invariant
                i <= ids@.len(),
                w == self.model(),
                reclassed(w, ident_models(ids@), var_views(vs@), class, i as int) == reclassed(
                    w,
                    ident_models(ids@),
                    var_views(vs0@),
                    class,
                    0,
                ),
            decreases ids.len() - i,
        {
            proof {
                reveal_with_fuel(reclassed, 1);
                assert(ident_models(ids@)[i as int] == ids@[i as int].model());
            }
            let ghost before = var_views(vs@);
            match find_var(&vs, &ids[i].name) {
                None => {
                    return Err(
                        self.fail(
                            ids[i].span,
                            text3("Undeclared state variable \"", ids[i].name.as_str(), "\"."),
                        ),
                    );
                },
                Some(p) => {
                    assert(before[p as int] == vs@[p as int].model());
                    let v = StateVar { name: vs[p].name.clone(), class, ty: vs[p].ty.clone() };
                    vs.set(p, v);
                    assert(var_views(vs@) =~= before.update(p as int, v.model()));
                },
            }
            i += 1;
        }
        proof {
            reveal_with_fuel(reclassed, 1);
        }
        Ok(vs)
    }

    fn declare_vars(&self, ids: &Vec<Ident>, class: VarClass, t: &SemType, vs0: Vec<StateVar>) -> (r: Result<
        Vec<StateVar>,
        CheckError,
    >)
        ensures
            match (r, declared(self.model(), ident_models(ids@), class, t.model(), var_views(vs0@), 0)) {
                (Ok(v), Ok(m)) => var_views(v@) == m,
                (Err(e), Err(f)) => e.model() == f,
                _ => false,
            },
    {
        let ghost w = self.model();
        let mut vs = vs0;
        let mut i: usize = 0;
        while i < ids.len()
            invariant
                i <= ids@.len(),
                w == self.model(),
                declared(w, ident_models(ids@), class, t.model(), var_views(vs@), i as int) == declared(
                    w,
                    ident_models(ids@),
                    class,
                    t.model(),
                    var_views(vs0@),
                    0,
                ),
            decreases ids.len() - i,
        {
            proof {
                reveal_with_fuel(declared, 1);
                assert(ident_models(ids@)[i as int] == ids@[i as int].model());
            }
            let ghost before = var_views(vs@);
            match find_var(&vs, &ids[i].name) {
                None => {
                    let v = StateVar { name: ids[i].name.clone(), class, ty: t.clone() };
                    let ghost m = v.model();
                    vs.push(v);
                    assert(var_views(vs@) =~= before.push(m));
                },
                Some(p) => {
                    assert(before[p as int] == vs@[p as int].model());
                    if vs[p].class != class || !vs[p].ty.compatible(t) {
                        return Err(
                            self.fail(
                                ids[i].span,
                                text3("Variable \"", ids[i].name.as_str(), "\" is declared twice."),
                            ),
                        );
                    }
                },
            }
            i += 1;
        }
        proof {
            reveal_with_fuel(declared, 1);
        }
        Ok(vs)
    }

    /// The type that a type expression stands for.
    fn type_kind(&self, x: &Type, scope: &mut Vec<Bind>, k: usize) -> (res: Result<SemType, CheckError>)
        ensures
            match (res, c_type_kind(self.model(), x.model(), binds(old(scope)@), judge(self.model(), k as nat))) {
                (Ok(v), Ok(m)) => v.model() == m && binds(final(scope)@) == binds(old(scope)@),
                (Err(e), Err(f)) => e.model() == f,
                _ => false,
            },
        decreases k, 22nat,
    {
        let ghost w = self.model();
        let ghost g = judge(w, k as nat);
        proof {
            reveal(c_type_kind);
        }
        let ghost xm = x.kind.model();
        match &x.kind {
            TypeKind::Name(n) => {
                let found = match self.lookup(n, scope, k) {
                    Ok(x) => x,
                    Err(e) => {
                        return Err(e);
                    },
                };
                match found.1 {
                    Entry::Type(t, _d) => {
                        return Ok(t.clone());
                    },
                    _ => {
                        return Err(self.fail(x.span, text3("Unknown type \"", n.id.name.as_str(), "\".")));
                    },
                }
            },
            TypeKind::Subrange(lo, hi) => {
                let _a = match self.bound(lo, scope, k) {
                    Ok(x) => x,
                    Err(e) => {
                        return Err(e);
                    },
                };
                let _b = match self.bound(hi, scope, k) {
                    Ok(x) => x,
                    Err(e) => {
                        return Err(e);
                    },
                };
                return Ok(SemType::Number);
            },
            TypeKind::Subtype(sp) => {
                let ghost spm = sp.model();
                let base = match self.ty(&sp.ty, scope, k) {
                    Ok(x) => x,
                    Err(e) => {
                        return Err(e);
                    },
                };
                let _a = match self.predicate(sp, &base, scope, k) {
                    Ok(x) => x,
                    Err(e) => {
                        return Err(e);
                    },
                };
                return Ok(base);
            },
            TypeKind::Array(a, b) => {
                let i = match self.ty(a, scope, k) {
                    Ok(x) => x,
                    Err(e) => {
                        return Err(e);
                    },
                };
                let e = match self.ty(b, scope, k) {
                    Ok(x) => x,
                    Err(e) => {
                        return Err(e);
                    },
                };
                return Ok(SemType::Array(Box::new(i), Box::new(e)));
            },
            TypeKind::Tuple(ts) => {
                let none = Vec::new();
                proof { assert(sem_models(none@) =~= Seq::empty()); }
                let v = match self.types(ts, none, scope, k) {
                    Ok(x) => x,
                    Err(e) => {
                        return Err(e);
                    },
                };
                return Ok(SemType::Tuple(v));
            },
            TypeKind::Function(a, b) => {
                let d = match self.ty(a, scope, k) {
                    Ok(x) => x,
                    Err(e) => {
                        return Err(e);
                    },
                };
                let r = match self.ty(b, scope, k) {
                    Ok(x) => x,
                    Err(e) => {
                        return Err(e);
                    },
                };
                return Ok(SemType::Fun(Box::new(d), Box::new(r)));
            },
            TypeKind::Record(fs) => {
                let none = Vec::new();
                proof { assert(sem_fields(none@) =~= Seq::empty()); }
                let v = match self.fields(fs, none, scope, k) {
                    Ok(x) => x,
                    Err(e) => {
                        return Err(e);
                    },
                };
                return Ok(SemType::Record(v));
            },
            TypeKind::State(m) => {
                let _a = match self.module(m, scope, k) {
                    Ok(x) => x,
                    Err(e) => {
                        return Err(e);
                    },
                };
                return Ok(SemType::State);
            },
        }

    }

    /// A bound of a subrange is a number, or left open.
    fn bound(&self, x: &Expr, scope: &mut Vec<Bind>, k: usize) -> (res: Result<(), CheckError>)
        ensures
            match (res, c_bound(self.model(), x.model(), binds(old(scope)@), judge(self.model(), k as nat))) {
                (Ok(v), Ok(m)) => true && binds(final(scope)@) == binds(old(scope)@),
                (Err(e), Err(f)) => e.model() == f,
                _ => false,
            },
        decreases k, 3nat,
    {
        let ghost w = self.model();
        let ghost g = judge(w, k as nat);
        proof {
            reveal(c_bound);
        }
        if is_unbounded(&x.kind) {
            return Ok(());
        }
        let t = match self.expr(x, scope, k) {
            Ok(x) => x,
            Err(e) => {
                return Err(e);
            },
        };
        return self.require(x.span, &t, &SemType::Number);

    }

    /// The predicate of a set is a condition on its elements.
    fn predicate(&self, x: &SetPred, base: &SemType, scope: &mut Vec<Bind>, k: usize) -> (res: Result<(), CheckError>)
        ensures
            match (res, c_predicate(self.model(), x.model(), base.model(), binds(old(scope)@), judge(self.model(), k as nat))) {
                (Ok(v), Ok(m)) => true && binds(final(scope)@) == binds(old(scope)@),
                (Err(e), Err(f)) => e.model() == f,
                _ => false,
            },
        decreases k, 3nat,
    {
        let ghost w = self.model();
        let ghost g = judge(w, k as nat);
        proof {
            reveal(c_predicate);
        }
        let mark: usize = scope.len();
        let ghost sc0 = binds(scope@);
        bind(scope, &x.var.name, base, false);
        let t = match self.expr(&x.pred, scope, k) {
            Ok(x) => x,
            Err(e) => {
                return Err(e);
            },
        };
        scope.truncate(mark);
        assert(binds(scope@) =~= sc0);
        return self.require(x.pred.span, &t, &SemType::Bool);

    }

    /// Several types.
    fn types(&self, v: &Vec<Type>, acc0: Vec<SemType>, scope: &mut Vec<Bind>, k: usize) -> (res: Result<Vec<SemType>, CheckError>)
        ensures
            match (res, c_types(self.model(), type_models(v@), sem_models(acc0@), binds(old(scope)@), judge(self.model(), k as nat), 0)) {
                (Ok(v), Ok(m)) => sem_models(v@) == m && binds(final(scope)@) == binds(old(scope)@),
                (Err(e), Err(f)) => e.model() == f,
                _ => false,
            },
        decreases k, 3nat,
    {
        let ghost w = self.model();
        let ghost g = judge(w, k as nat);
        let mut acc = acc0;
        let mut i: usize = 0;
        while i < v.len()
            invariant
                i <= v@.len(),
                w == self.model(),
                g == judge(w, k as nat),
                c_types(w, type_models(v@), sem_models(acc@), binds(scope@), g, i as int)
                    == c_types(w, type_models(v@), sem_models(acc0@), binds(old(scope)@), g, 0),
                binds(scope@) == binds(old(scope)@),
            decreases v.len() - i,
        {
            let ghost before = binds(scope@);
            proof {
                reveal_with_fuel(c_types, 1);
                assert(type_models(v@)[i as int] == v@[i as int].model());
            }
            let t = match self.ty(&v[i], scope, k) {
                Ok(x) => x,
                Err(e) => {
                    return Err(e);
                },
            };
            let ghost tm = t.model();
            let ghost a0 = acc@;
            acc.push(t);
            assert(sem_models(acc@) =~= sem_models(a0).push(tm));
            i += 1;
            continue;

        }
        proof {
            reveal_with_fuel(c_types, 1);
        }
        Ok(acc)
    }

    /// The fields of a record type, sorted by name.
    fn fields(&self, v: &Vec<FieldDecl>, acc0: Vec<(String, SemType)>, scope: &mut Vec<Bind>, k: usize) -> (res: Result<Vec<(String, SemType)>, CheckError>)
        ensures
            match (res, c_fields(self.model(), field_decl_models(v@), sem_fields(acc0@), binds(old(scope)@), judge(self.model(), k as nat), 0)) {
                (Ok(v), Ok(m)) => sem_fields(v@) == m && binds(final(scope)@) == binds(old(scope)@),
                (Err(e), Err(f)) => e.model() == f,
                _ => false,
            },
        decreases k, 3nat,
    {
        let ghost w = self.model();
        let ghost g = judge(w, k as nat);
        let mut acc = acc0;
        let mut i: usize = 0;
        while i < v.len()
            invariant
                i <= v@.len(),
                w == self.model(),
                g == judge(w, k as nat),
                c_fields(w, field_decl_models(v@), sem_fields(acc@), binds(scope@), g, i as int)
                    == c_fields(w, field_decl_models(v@), sem_fields(acc0@), binds(old(scope)@), g, 0),
                binds(scope@) == binds(old(scope)@),
            decreases v.len() - i,
        {
            let ghost before = binds(scope@);
            proof {
                reveal_with_fuel(c_fields, 1);
                assert(field_decl_models(v@)[i as int] == v@[i as int].model());
            }
            let ghost fm = v@[i as int].model();
            let t = match self.ty(&v[i].ty, scope, k) {
                Ok(x) => x,
                Err(e) => {
                    return Err(e);
                },
            };
            acc = insert_field(acc, v[i].name.name.clone(), t);
            i += 1;
            continue;

        }
        proof {
            reveal_with_fuel(c_fields, 1);
        }
        Ok(acc)
    }

    /// The types of several expressions.
    fn exprs(&self, v: &Vec<Expr>, acc0: Vec<SemType>, scope: &mut Vec<Bind>, k: usize) -> (res: Result<Vec<SemType>, CheckError>)
        ensures
            match (res, c_exprs(self.model(), expr_models(v@), sem_models(acc0@), binds(old(scope)@), judge(self.model(), k as nat), 0)) {
                (Ok(v), Ok(m)) => sem_models(v@) == m && binds(final(scope)@) == binds(old(scope)@),
                (Err(e), Err(f)) => e.model() == f,
                _ => false,
            },
        decreases k, 3nat,
    {
        let ghost w = self.model();
        let ghost g = judge(w, k as nat);
        let mut acc = acc0;
        let mut i: usize = 0;
        while i < v.len()
            invariant
                i <= v@.len(),
                w == self.model(),
                g == judge(w, k as nat),
                c_exprs(w, expr_models(v@), sem_models(acc@), binds(scope@), g, i as int)
                    == c_exprs(w, expr_models(v@), sem_models(acc0@), binds(old(scope)@), g, 0),
                binds(scope@) == binds(old(scope)@),
            decreases v.len() - i,
        {
            let ghost before = binds(scope@);
            proof {
                reveal_with_fuel(c_exprs, 1);
                assert(expr_models(v@)[i as int] == v@[i as int].model());
            }
            let t = match self.expr(&v[i], scope, k) {
                Ok(x) => x,
                Err(e) => {
                    return Err(e);
                },
            };
            let ghost tm = t.model();
            let ghost a0 = acc@;
            acc.push(t);
            assert(sem_models(acc@) =~= sem_models(a0).push(tm));
            i += 1;
            continue;

        }
        proof {
            reveal_with_fuel(c_exprs, 1);
        }
        Ok(acc)
    }

    /// The type of arguments: that of the one, or the tuple of all.
    fn arguments(&self, v: &Vec<Expr>, scope: &mut Vec<Bind>, k: usize) -> (res: Result<SemType, CheckError>)
        ensures
            match (res, c_arguments(self.model(), expr_models(v@), binds(old(scope)@), judge(self.model(), k as nat))) {
                (Ok(v), Ok(m)) => v.model() == m && binds(final(scope)@) == binds(old(scope)@),
                (Err(e), Err(f)) => e.model() == f,
                _ => false,
            },
        decreases k, 4nat,
    {
        let ghost w = self.model();
        let ghost g = judge(w, k as nat);
        proof {
            reveal(c_arguments);
        }
        let none = Vec::new();
        proof { assert(sem_models(none@) =~= Seq::empty()); }
        let ts = match self.exprs(v, none, scope, k) {
            Ok(x) => x,
            Err(e) => {
                return Err(e);
            },
        };
        return Ok(pack(ts));

    }

    /// The elements of a set have one type.
    fn elements(&self, v: &Vec<Expr>, acc0: SemType, scope: &mut Vec<Bind>, k: usize) -> (res: Result<SemType, CheckError>)
        ensures
            match (res, c_elements(self.model(), expr_models(v@), acc0.model(), binds(old(scope)@), judge(self.model(), k as nat), 0)) {
                (Ok(v), Ok(m)) => v.model() == m && binds(final(scope)@) == binds(old(scope)@),
                (Err(e), Err(f)) => e.model() == f,
                _ => false,
            },
        decreases k, 3nat,
    {
        let ghost w = self.model();
        let ghost g = judge(w, k as nat);
        let mut acc = acc0;
        let mut i: usize = 0;
        while i < v.len()
            invariant
                i <= v@.len(),
                w == self.model(),
                g == judge(w, k as nat),
                c_elements(w, expr_models(v@), acc.model(), binds(scope@), g, i as int)
                    == c_elements(w, expr_models(v@), acc0.model(), binds(old(scope)@), g, 0),
                binds(scope@) == binds(old(scope)@),
            decreases v.len() - i,
        {
            let ghost before = binds(scope@);
            proof {
                reveal_with_fuel(c_elements, 1);
                assert(expr_models(v@)[i as int] == v@[i as int].model());
            }
            let ghost em = v@[i as int].model();
            let t = match self.expr(&v[i], scope, k) {
                Ok(x) => x,
                Err(e) => {
                    return Err(e);
                },
            };
            let _u = match self.require(v[i].span, &t, &acc) {
                Ok(x) => x,
                Err(e) => {
                    return Err(e);
                },
            };
            if is_any(&acc) {
                acc = t;
            }
            i += 1;
            continue;

        }
        proof {
            reveal_with_fuel(c_elements, 1);
        }
        Ok(acc)
    }

    /// The fields of a record, sorted by name.
    fn entries(&self, v: &Vec<(Ident, Expr)>, acc0: Vec<(String, SemType)>, scope: &mut Vec<Bind>, k: usize) -> (res: Result<Vec<(String, SemType)>, CheckError>)
        ensures
            match (res, c_entries(self.model(), ident_expr_pairs(v@), sem_fields(acc0@), binds(old(scope)@), judge(self.model(), k as nat), 0)) {
                (Ok(v), Ok(m)) => sem_fields(v@) == m && binds(final(scope)@) == binds(old(scope)@),
                (Err(e), Err(f)) => e.model() == f,
                _ => false,
            },
        decreases k, 3nat,
    {
        let ghost w = self.model();
        let ghost g = judge(w, k as nat);
        let mut acc = acc0;
        let mut i: usize = 0;
        while i < v.len()
            invariant
                i <= v@.len(),
                w == self.model(),
                g == judge(w, k as nat),
                c_entries(w, ident_expr_pairs(v@), sem_fields(acc@), binds(scope@), g, i as int)
                    == c_entries(w, ident_expr_pairs(v@), sem_fields(acc0@), binds(old(scope)@), g, 0),
                binds(scope@) == binds(old(scope)@),
            decreases v.len() - i,
        {
            let ghost before = binds(scope@);
            proof {
                reveal_with_fuel(c_entries, 1);
                assert(ident_expr_pairs(v@)[i as int] == (v@[i as int].0.model(), v@[i as int].1.model()));
            }
            let ghost nm = v@[i as int].0.model();
            let t = match self.expr(&v[i].1, scope, k) {
                Ok(x) => x,
                Err(e) => {
                    return Err(e);
                },
            };
            acc = insert_field(acc, v[i].0.name.clone(), t);
            i += 1;
            continue;

        }
        proof {
            reveal_with_fuel(c_entries, 1);
        }
        Ok(acc)
    }

    /// Brings variables into scope; their types.
    fn declare(&self, v: &Vec<VarDecl>, acc0: Vec<SemType>, scope: &mut Vec<Bind>, k: usize) -> (res: Result<Vec<SemType>, CheckError>)
        ensures
            match (res, c_declare(self.model(), var_decl_models(v@), sem_models(acc0@), binds(old(scope)@), judge(self.model(), k as nat), 0)) {
                (Ok(v), Ok(m)) => sem_models(v@) == m.1 && binds(final(scope)@) == m.0
                    && binds(final(scope)@).len() >= binds(old(scope)@).len()
                    && binds(final(scope)@).take(binds(old(scope)@).len() as int) == binds(old(scope)@),
                (Err(e), Err(f)) => e.model() == f,
                _ => false,
            },
        decreases k, 3nat,
    {
        let ghost w = self.model();
        let ghost g = judge(w, k as nat);
        let mut acc = acc0;
        proof {
            assert(binds(scope@).take(binds(scope@).len() as int) =~= binds(scope@));
        }
        let mut i: usize = 0;
        while i < v.len()
            invariant
                i <= v@.len(),
                w == self.model(),
                g == judge(w, k as nat),
                c_declare(w, var_decl_models(v@), sem_models(acc@), binds(scope@), g, i as int)
                    == c_declare(w, var_decl_models(v@), sem_models(acc0@), binds(old(scope)@), g, 0),
                binds(scope@).len() >= binds(old(scope)@).len(),
                binds(scope@).take(binds(old(scope)@).len() as int) == binds(old(scope)@),
            decreases v.len() - i,
        {
            let ghost before = binds(scope@);
            proof {
                reveal_with_fuel(c_declare, 1);
                assert(var_decl_models(v@)[i as int] == v@[i as int].model());
            }
            let ghost dm = v@[i as int].model();
            let t = match self.ty(&v[i].ty, scope, k) {
                Ok(x) => x,
                Err(e) => {
                    return Err(e);
                },
            };
            let count: usize = v[i].names.len();
            acc = append_same(acc, count, &t);
            bind_all(scope, &v[i].names, &t, false);
            i += 1;
            continue;

        }
        proof {
            reveal_with_fuel(c_declare, 1);
        }
        Ok(acc)
    }

    /// Brings local declarations into scope.
    fn lets(&self, v: &Vec<LetDecl>, scope: &mut Vec<Bind>, k: usize) -> (res: Result<(), CheckError>)
        ensures
            match (res, c_lets(self.model(), let_decl_models(v@), binds(old(scope)@), judge(self.model(), k as nat), 0)) {
                (Ok(v), Ok(m)) => binds(final(scope)@) == m
                    && binds(final(scope)@).len() >= binds(old(scope)@).len()
                    && binds(final(scope)@).take(binds(old(scope)@).len() as int) == binds(old(scope)@),
                (Err(e), Err(f)) => e.model() == f,
                _ => false,
            },
        decreases k, 3nat,
    {
        let ghost w = self.model();
        let ghost g = judge(w, k as nat);
        proof {
            assert(binds(scope@).take(binds(scope@).len() as int) =~= binds(scope@));
        }
        let mut i: usize = 0;
        while i < v.len()
            invariant
                i <= v@.len(),
                w == self.model(),
                g == judge(w, k as nat),
                c_lets(w, let_decl_models(v@), binds(scope@), g, i as int)
                    == c_lets(w, let_decl_models(v@), binds(old(scope)@), g, 0),
                binds(scope@).len() >= binds(old(scope)@).len(),
                binds(scope@).take(binds(old(scope)@).len() as int) == binds(old(scope)@),
            decreases v.len() - i,
        {
            let ghost before = binds(scope@);
            proof {
                reveal_with_fuel(c_lets, 1);
                assert(let_decl_models(v@)[i as int] == v@[i as int].model());
            }
            let ghost dm = v@[i as int].model();
            let t = match self.ty(&v[i].ty, scope, k) {
                Ok(x) => x,
                Err(e) => {
                    return Err(e);
                },
            };
            let vt = match self.expr(&v[i].value, scope, k) {
                Ok(x) => x,
                Err(e) => {
                    return Err(e);
                },
            };
            let _u = match self.require(v[i].value.span, &vt, &t) {
                Ok(x) => x,
                Err(e) => {
                    return Err(e);
                },
            };
            bind(scope, &v[i].name.name, &t, false);
            i += 1;
            continue;

        }
        proof {
            reveal_with_fuel(c_lets, 1);
        }
        Ok(())
    }

    /// The type of an expression made of several, or of a module.
    fn infer_rest(&self, x: &Expr, scope: &mut Vec<Bind>, k: usize) -> (res: Result<SemType, CheckError>)
        ensures
            match (res, c_infer_rest(self.model(), x.model(), binds(old(scope)@), judge(self.model(), k as nat))) {
                (Ok(v), Ok(m)) => v.model() == m && binds(final(scope)@) == binds(old(scope)@),
                (Err(e), Err(f)) => e.model() == f,
                _ => false,
            },
        decreases k, 12nat,
    {
        let ghost w = self.model();
        let ghost g = judge(w, k as nat);
        proof {
            reveal(c_infer_rest);
        }
        let ghost xm = x.kind.model();
        match &x.kind {
            ExprKind::RecordLit(es) => {
                let none = Vec::new();
                proof { assert(sem_fields(none@) =~= Seq::empty()); }
                let v = match self.entries(es, none, scope, k) {
                    Ok(x) => x,
                    Err(e) => {
                        return Err(e);
                    },
                };
                return Ok(SemType::Record(v));
            },
            ExprKind::TupleLit(es) => {
                let none = Vec::new();
                proof { assert(sem_models(none@) =~= Seq::empty()); }
                let ts = match self.exprs(es, none, scope, k) {
                    Ok(x) => x,
                    Err(e) => {
                        return Err(e);
                    },
                };
                return Ok(SemType::Tuple(ts));
            },
            ExprKind::Conditional { cond, then_, els, is_elsif } => {
                let ct = match self.expr(cond, scope, k) {
                    Ok(x) => x,
                    Err(e) => {
                        return Err(e);
                    },
                };
                let _u = match self.require(cond.span, &ct, &SemType::Bool) {
                    Ok(x) => x,
                    Err(e) => {
                        return Err(e);
                    },
                };
                let tt = match self.expr(then_, scope, k) {
                    Ok(x) => x,
                    Err(e) => {
                        return Err(e);
                    },
                };
                let et = match self.expr(els, scope, k) {
                    Ok(x) => x,
                    Err(e) => {
                        return Err(e);
                    },
                };
                let _u = match self.require(els.span, &et, &tt) {
                    Ok(x) => x,
                    Err(e) => {
                        return Err(e);
                    },
                };
                if is_any(&tt) {
                    return Ok(et);
                }
                return Ok(tt);
            },
            ExprKind::ModInit(m) => {
                let _a = match self.module(m, scope, k) {
                    Ok(x) => x,
                    Err(e) => {
                        return Err(e);
                    },
                };
                return Ok(fun_type(SemType::State, SemType::Bool));
            },
            ExprKind::ModTrans(m) => {
                let _a = match self.module(m, scope, k) {
                    Ok(x) => x,
                    Err(e) => {
                        return Err(e);
                    },
                };
                return Ok(fun_type(pair_type(SemType::State, SemType::State), SemType::Bool));
            },
            ExprKind::Unbounded => {
                return Ok(SemType::Number);
            },
            _ => {
                return Ok(SemType::Any);
            },
        }

    }

    /// The type of a set or of an array given by its elements.
    fn infer_set(&self, x: &Expr, scope: &mut Vec<Bind>, k: usize) -> (res: Result<SemType, CheckError>)
        ensures
            match (res, c_infer_set(self.model(), x.model(), binds(old(scope)@), judge(self.model(), k as nat))) {
                (Ok(v), Ok(m)) => v.model() == m && binds(final(scope)@) == binds(old(scope)@),
                (Err(e), Err(f)) => e.model() == f,
                _ => false,
            },
        decreases k, 13nat,
    {
        let ghost w = self.model();
        let ghost g = judge(w, k as nat);
        proof {
            reveal(c_infer_set);
        }
        let ghost xm = x.kind.model();
        match &x.kind {
            ExprKind::SetPred(sp) => {
                let ghost spm = sp.model();
                let base = match self.ty(&sp.ty, scope, k) {
                    Ok(x) => x,
                    Err(e) => {
                        return Err(e);
                    },
                };
                let _a = match self.predicate(sp, &base, scope, k) {
                    Ok(x) => x,
                    Err(e) => {
                        return Err(e);
                    },
                };
                return Ok(fun_type(base, SemType::Bool));
            },
            ExprKind::SetList(es) => {
                let t = match self.elements(es, SemType::Any, scope, k) {
                    Ok(x) => x,
                    Err(e) => {
                        return Err(e);
                    },
                };
                return Ok(fun_type(t, SemType::Bool));
            },
            ExprKind::ArrayLit(d, b) => {
                let ghost dm = d.model();
                let it = match self.ty(&d.ty, scope, k) {
                    Ok(x) => x,
                    Err(e) => {
                        return Err(e);
                    },
                };
                let mark: usize = scope.len();
                let ghost sc0 = binds(scope@);
                bind_first(scope, &d.names, &it);
                let bt = match self.expr(b, scope, k) {
                    Ok(x) => x,
                    Err(e) => {
                        return Err(e);
                    },
                };
                scope.truncate(mark);
                proof { assert(binds(scope@) =~= sc0); }
                return Ok(SemType::Array(Box::new(it), Box::new(bt)));
            },
            _ => {
                return self.infer_rest(x, scope, k);
            },
        }

    }

    /// The type of an expression that binds variables.
    fn infer_binder(&self, x: &Expr, scope: &mut Vec<Bind>, k: usize) -> (res: Result<SemType, CheckError>)
        ensures
            match (res, c_infer_binder(self.model(), x.model(), binds(old(scope)@), judge(self.model(), k as nat))) {
                (Ok(v), Ok(m)) => v.model() == m && binds(final(scope)@) == binds(old(scope)@),
                (Err(e), Err(f)) => e.model() == f,
                _ => false,
            },
        decreases k, 14nat,
    {
        let ghost w = self.model();
        let ghost g = judge(w, k as nat);
        proof {
            reveal(c_infer_binder);
        }
        let ghost xm = x.kind.model();
        match &x.kind {
            ExprKind::Lambda(ds, b) => {
                let mark: usize = scope.len();
                let ghost sc0 = binds(scope@);
                let none = Vec::new();
                proof { assert(sem_models(none@) =~= Seq::empty()); }
                let dsc = match self.declare(ds, none, scope, k) {
                    Ok(x) => x,
                    Err(e) => {
                        return Err(e);
                    },
                };
                let dom = dsc;
                let bt = match self.expr(b, scope, k) {
                    Ok(x) => x,
                    Err(e) => {
                        return Err(e);
                    },
                };
                scope.truncate(mark);
                proof { assert(binds(scope@) =~= sc0); }
                return Ok(SemType::Fun(Box::new(pack(dom)), Box::new(bt)));
            },
            ExprKind::Quantified(_q, ds, b) => {
                let mark: usize = scope.len();
                let ghost sc0 = binds(scope@);
                let none = Vec::new();
                proof { assert(sem_models(none@) =~= Seq::empty()); }
                let dsc = match self.declare(ds, none, scope, k) {
                    Ok(x) => x,
                    Err(e) => {
                        return Err(e);
                    },
                };
                let bt = match self.expr(b, scope, k) {
                    Ok(x) => x,
                    Err(e) => {
                        return Err(e);
                    },
                };
                scope.truncate(mark);
                proof { assert(binds(scope@) =~= sc0); }
                let _u = match self.require(b.span, &bt, &SemType::Bool) {
                    Ok(x) => x,
                    Err(e) => {
                        return Err(e);
                    },
                };
                return Ok(SemType::Bool);
            },
            ExprKind::Let(ds, b) => {
                let mark: usize = scope.len();
                let ghost sc0 = binds(scope@);
                let sc2 = match self.lets(ds, scope, k) {
                    Ok(x) => x,
                    Err(e) => {
                        return Err(e);
                    },
                };
                let bt = match self.expr(b, scope, k) {
                    Ok(x) => x,
                    Err(e) => {
                        return Err(e);
                    },
                };
                scope.truncate(mark);
                proof { assert(binds(scope@) =~= sc0); }
                return Ok(bt);
            },
            _ => {
                return self.infer_set(x, scope, k);
            },
        }

    }

    /// The type of a part or of a changed value.
    fn infer_part(&self, x: &Expr, scope: &mut Vec<Bind>, k: usize) -> (res: Result<SemType, CheckError>)
        ensures
            match (res, c_infer_part(self.model(), x.model(), binds(old(scope)@), judge(self.model(), k as nat))) {
                (Ok(v), Ok(m)) => v.model() == m && binds(final(scope)@) == binds(old(scope)@),
                (Err(e), Err(f)) => e.model() == f,
                _ => false,
            },
        decreases k, 15nat,
    {
        let ghost w = self.model();
        let ghost g = judge(w, k as nat);
        proof {
            reveal(c_infer_part);
        }
        let ghost xm = x.kind.model();
        match &x.kind {
            ExprKind::RecordSelect(r, f) => {
                let tr = match self.expr(r, scope, k) {
                    Ok(x) => x,
                    Err(e) => {
                        return Err(e);
                    },
                };
                match tr {
                    SemType::Record(fs) => {
                        match find_field(&fs, &f.name) {
                            Some(t) => {
                                return Ok(t);
                            },
                            None => {
                                return Err(self.fail(f.span, text3("Unknown record field \"", f.name.as_str(), "\".")));
                            },
                        }
                    },
                    SemType::Any => {
                        return Ok(SemType::Any);
                    },
                    other => {
                        return Err(self.fail(r.span, text3("Record type expected, found ", other.text().as_str(), ".")));
                    },
                }
            },
            ExprKind::TupleSelect(a, j) => {
                let ta = match self.expr(a, scope, k) {
                    Ok(x) => x,
                    Err(e) => {
                        return Err(e);
                    },
                };
                match ta {
                    SemType::Tuple(ts) => {
                        if 1 <= *j && *j as usize <= ts.len() {
                            proof { assert(sem_models(ts@)[*j as int - 1] == ts@[*j as int - 1].model()); }
                            return Ok(ts[*j as usize - 1].clone());
                        }
                        return Err(self.fail(x.span, own("Tuple index out of bounds.")));
                    },
                    SemType::Any => {
                        return Ok(SemType::Any);
                    },
                    other => {
                        return Err(self.fail(a.span, text3("Tuple type expected, found ", other.text().as_str(), ".")));
                    },
                }
            },
            ExprKind::Update { target, accesses, value } => {
                let tt = match self.expr(target, scope, k) {
                    Ok(x) => x,
                    Err(e) => {
                        return Err(e);
                    },
                };
                let vt = match self.accessed(accesses, tt.clone(), x.span, scope, k) {
                    Ok(x) => x,
                    Err(e) => {
                        return Err(e);
                    },
                };
                let t = match self.expr(value, scope, k) {
                    Ok(x) => x,
                    Err(e) => {
                        return Err(e);
                    },
                };
                let _u = match self.require(value.span, &t, &vt) {
                    Ok(x) => x,
                    Err(e) => {
                        return Err(e);
                    },
                };
                return Ok(tt);
            },
            _ => {
                return self.infer_binder(x, scope, k);
            },
        }

    }

    /// The type of an expression that applies something.
    fn infer_use(&self, x: &Expr, scope: &mut Vec<Bind>, k: usize) -> (res: Result<SemType, CheckError>)
        ensures
            match (res, c_infer_use(self.model(), x.model(), binds(old(scope)@), judge(self.model(), k as nat))) {
                (Ok(v), Ok(m)) => v.model() == m && binds(final(scope)@) == binds(old(scope)@),
                (Err(e), Err(f)) => e.model() == f,
                _ => false,
            },
        decreases k, 16nat,
    {
        let ghost w = self.model();
        let ghost g = judge(w, k as nat);
        proof {
            reveal(c_infer_use);
        }
        let ghost xm = x.kind.model();
        match &x.kind {
            ExprKind::Unary(op, a) => {
                let t = match self.expr(a, scope, k) {
                    Ok(x) => x,
                    Err(e) => {
                        return Err(e);
                    },
                };
                if *op == UnOp::Not {
                    let _u = match self.require(a.span, &t, &SemType::Bool) {
                        Ok(x) => x,
                        Err(e) => {
                            return Err(e);
                        },
                    };
                    return Ok(SemType::Bool);
                }
                let _u = match self.require(a.span, &t, &SemType::Number) {
                    Ok(x) => x,
                    Err(e) => {
                        return Err(e);
                    },
                };
                return Ok(SemType::Number);
            },
            ExprKind::App(f, args) => {
                let ft = match self.expr(f, scope, k) {
                    Ok(x) => x,
                    Err(e) => {
                        return Err(e);
                    },
                };
                let at = match self.arguments(args, scope, k) {
                    Ok(x) => x,
                    Err(e) => {
                        return Err(e);
                    },
                };
                match ft {
                    SemType::Fun(d, r) => {
                        let _u = match self.require(x.span, &at, &d) {
                            Ok(x) => x,
                            Err(e) => {
                                return Err(e);
                            },
                        };
                        return Ok(*r);
                    },
                    SemType::Array(d, r) => {
                        let _u = match self.require(x.span, &at, &d) {
                            Ok(x) => x,
                            Err(e) => {
                                return Err(e);
                            },
                        };
                        return Ok(*r);
                    },
                    SemType::Any => {
                        return Ok(SemType::Any);
                    },
                    other => {
                        return Err(self.fail(f.span, text3("Function (array) type expected, found ", other.text().as_str(), ".")));
                    },
                }
            },
            ExprKind::ArraySelect(a, j) => {
                let ta = match self.expr(a, scope, k) {
                    Ok(x) => x,
                    Err(e) => {
                        return Err(e);
                    },
                };
                let ti = match self.expr(j, scope, k) {
                    Ok(x) => x,
                    Err(e) => {
                        return Err(e);
                    },
                };
                match ta {
                    SemType::Array(d, r) => {
                        let _u = match self.require(j.span, &ti, &d) {
                            Ok(x) => x,
                            Err(e) => {
                                return Err(e);
                            },
                        };
                        return Ok(*r);
                    },
                    SemType::Fun(d, r) => {
                        let _u = match self.require(j.span, &ti, &d) {
                            Ok(x) => x,
                            Err(e) => {
                                return Err(e);
                            },
                        };
                        return Ok(*r);
                    },
                    SemType::Any => {
                        return Ok(SemType::Any);
                    },
                    other => {
                        return Err(self.fail(a.span, text3("Function (array) type expected, found ", other.text().as_str(), ".")));
                    },
                }
            },
            _ => {
                return self.infer_part(x, scope, k);
            },
        }

    }

    /// The type of an expression.
    fn infer(&self, x: &Expr, scope: &mut Vec<Bind>, k: usize) -> (res: Result<SemType, CheckError>)
        ensures
            match (res, c_infer(self.model(), x.model(), binds(old(scope)@), judge(self.model(), k as nat))) {
                (Ok(v), Ok(m)) => v.model() == m && binds(final(scope)@) == binds(old(scope)@),
                (Err(e), Err(f)) => e.model() == f,
                _ => false,
            },
        decreases k, 17nat,
    {
        let ghost w = self.model();
        let ghost g = judge(w, k as nat);
        proof {
            reveal(c_infer);
        }
        let ghost xm = x.kind.model();
        match &x.kind {
            ExprKind::Name(n) => {
                return self.name_type(x, n, scope, k);
            },
            ExprKind::Next(id) => {
                match find_type(scope, &id.name, true) {
                    Some(t) => {
                        return Ok(t);
                    },
                    None => {
                        return Err(self.fail(x.span, text3("Undeclared state variable \"", id.name.as_str(), "\".")));
                    },
                }
            },
            ExprKind::Numeral(_) => {
                return Ok(SemType::Number);
            },
            ExprKind::Float { numer, denom } => {
                return Ok(SemType::Number);
            },
            ExprKind::Str(_) => {
                return Ok(string_type());
            },
            ExprKind::Binary(op, a, b) => {
                return self.binary(x, *op, a, b, scope, k);
            },
            _ => {
                return self.infer_use(x, scope, k);
            },
        }

    }

    /// The type of a name.
    fn name_type(&self, x: &Expr, n: &Name, scope: &mut Vec<Bind>, k: usize) -> (res: Result<SemType, CheckError>)
        ensures
            match (res, c_name_type(self.model(), x.model(), n.model(), binds(old(scope)@), judge(self.model(), k as nat))) {
                (Ok(v), Ok(m)) => v.model() == m && binds(final(scope)@) == binds(old(scope)@),
                (Err(e), Err(f)) => e.model() == f,
                _ => false,
            },
        decreases k, 8nat,
    {
        let ghost w = self.model();
        let ghost g = judge(w, k as nat);
        proof {
            reveal(c_name_type);
        }
        match find_local(scope, n) {
            Some(t) => {
                return Ok(t);
            },
            None => {
                let found = match self.lookup(n, scope, k) {
                    Ok(x) => x,
                    Err(e) => {
                        return Err(e);
                    },
                };
                match found.1 {
                    Entry::Const(t, _v) => {
                        return Ok(t.clone());
                    },
                    Entry::Type(_, _) => {
                        return Err(self.fail(x.span, text3("Type \"", n.id.name.as_str(), "\" used as an expression.")));
                    },
                    Entry::Module(_, _, _, _) => {
                        return Err(self.fail(x.span, text3("Module \"", n.id.name.as_str(), "\" used as an expression.")));
                    },
                    _ => {
                        return Err(self.fail(x.span, text3("Invalid use of \"", n.id.name.as_str(), "\" in an expression.")));
                    },
                }
            },
        }

    }

    /// The type of a binary operation.
    fn binary(&self, x: &Expr, op: BinOp, a: &Expr, b: &Expr, scope: &mut Vec<Bind>, k: usize) -> (res: Result<SemType, CheckError>)
        ensures
            match (res, c_binary(self.model(), x.model(), op, a.model(), b.model(), binds(old(scope)@), judge(self.model(), k as nat))) {
                (Ok(v), Ok(m)) => v.model() == m && binds(final(scope)@) == binds(old(scope)@),
                (Err(e), Err(f)) => e.model() == f,
                _ => false,
            },
        decreases k, 3nat,
    {
        let ghost w = self.model();
        let ghost g = judge(w, k as nat);
        proof {
            reveal(c_binary);
        }
        let ta = match self.expr(a, scope, k) {
            Ok(x) => x,
            Err(e) => {
                return Err(e);
            },
        };
        let tb = match self.expr(b, scope, k) {
            Ok(x) => x,
            Err(e) => {
                return Err(e);
            },
        };
        if logical(op) {
            let _u = match self.require(a.span, &ta, &SemType::Bool) {
                Ok(x) => x,
                Err(e) => {
                    return Err(e);
                },
            };
            let _u = match self.require(b.span, &tb, &SemType::Bool) {
                Ok(x) => x,
                Err(e) => {
                    return Err(e);
                },
            };
            return Ok(SemType::Bool);
        }
        if op == BinOp::Eq || op == BinOp::Neq {
            let _u = match self.require(x.span, &tb, &ta) {
                Ok(x) => x,
                Err(e) => {
                    return Err(e);
                },
            };
            return Ok(SemType::Bool);
        }
        let _u = match self.require(a.span, &ta, &SemType::Number) {
            Ok(x) => x,
            Err(e) => {
                return Err(e);
            },
        };
        let _u = match self.require(b.span, &tb, &SemType::Number) {
            Ok(x) => x,
            Err(e) => {
                return Err(e);
            },
        };
        if order(op) {
            return Ok(SemType::Bool);
        }
        return Ok(SemType::Number);

    }

    /// The type reached by following accesses.
    fn accessed(&self, v: &Vec<Access>, acc0: SemType, span: Span, scope: &mut Vec<Bind>, k: usize) -> (res: Result<SemType, CheckError>)
        ensures
            match (res, c_accessed(self.model(), access_models(v@), acc0.model(), span, binds(old(scope)@), judge(self.model(), k as nat), 0)) {
                (Ok(v), Ok(m)) => v.model() == m && binds(final(scope)@) == binds(old(scope)@),
                (Err(e), Err(f)) => e.model() == f,
                _ => false,
            },
        decreases k, 6nat,
    {
        let ghost w = self.model();
        let ghost g = judge(w, k as nat);
        let mut acc = acc0;
        let mut i: usize = 0;
        while i < v.len()
            invariant
                i <= v@.len(),
                w == self.model(),
                g == judge(w, k as nat),
                c_accessed(w, access_models(v@), acc.model(), span, binds(scope@), g, i as int)
                    == c_accessed(w, access_models(v@), acc0.model(), span, binds(old(scope)@), g, 0),
                binds(scope@) == binds(old(scope)@),
            decreases v.len() - i,
        {
            let ghost before = binds(scope@);
            proof {
                reveal_with_fuel(c_accessed, 1);
                assert(access_models(v@)[i as int] == v@[i as int].model());
            }
            let t = match self.access_step(&v[i], acc, span, scope, k) {
                Ok(x) => x,
                Err(e) => {
                    return Err(e);
                },
            };
            acc = t;
            i += 1;
            continue;

        }
        proof {
            reveal_with_fuel(c_accessed, 1);
        }
        Ok(acc)
    }

    /// The type reached by one access.
    fn access_step(&self, a: &Access, t: SemType, span: Span, scope: &mut Vec<Bind>, k: usize) -> (res: Result<SemType, CheckError>)
        ensures
            match (res, c_access_step(self.model(), a.model(), t.model(), span, binds(old(scope)@), judge(self.model(), k as nat))) {
                (Ok(v), Ok(m)) => v.model() == m && binds(final(scope)@) == binds(old(scope)@),
                (Err(e), Err(f)) => e.model() == f,
                _ => false,
            },
        decreases k, 5nat,
    {
        let ghost w = self.model();
        let ghost g = judge(w, k as nat);
        proof {
            reveal(c_access_step);
        }
        if is_any(&t) {
            return Ok(SemType::Any);
        }
        match a {
            Access::Array(j) => {
                match index_of(&t) {
                    Some(p) => {
                        let it = match self.expr(j, scope, k) {
                            Ok(x) => x,
                            Err(e) => {
                                return Err(e);
                            },
                        };
                        let _u = match self.require(j.span, &it, &p.0) {
                            Ok(x) => x,
                            Err(e) => {
                                return Err(e);
                            },
                        };
                        return Ok(p.1);
                    },
                    None => {
                        return Err(self.fail(span, text3("Invalid access on a value of type ", t.text().as_str(), ".")));
                    },
                }
            },
            Access::Args(es) => {
                match fun_of(&t) {
                    Some(p) => {
                        let at = match self.arguments(es, scope, k) {
                            Ok(x) => x,
                            Err(e) => {
                                return Err(e);
                            },
                        };
                        let _u = match self.require(span, &at, &p.0) {
                            Ok(x) => x,
                            Err(e) => {
                                return Err(e);
                            },
                        };
                        return Ok(p.1);
                    },
                    None => {
                        return Err(self.fail(span, text3("Invalid access on a value of type ", t.text().as_str(), ".")));
                    },
                }
            },
            Access::Record(f) => {
                match &t {
                    SemType::Record(fs) => {
                        match find_field(fs, &f.name) {
                            Some(r) => {
                                return Ok(r);
                            },
                            None => {
                                return Err(self.fail(f.span, text3("Unknown record field \"", f.name.as_str(), "\".")));
                            },
                        }
                    },
                    _ => {
                        return Err(self.fail(span, text3("Invalid access on a value of type ", t.text().as_str(), ".")));
                    },
                }
            },
            Access::Tuple(j) => {
                match &t {
                    SemType::Tuple(ts) => {
                        if 1 <= *j && *j as usize <= ts.len() {
                            proof { assert(sem_models(ts@)[*j as int - 1] == ts@[*j as int - 1].model()); }
                            return Ok(ts[*j as usize - 1].clone());
                        }
                        return Err(self.fail(span, own("Tuple index out of bounds.")));
                    },
                    _ => {
                        return Err(self.fail(span, text3("Invalid access on a value of type ", t.text().as_str(), ".")));
                    },
                }
            },
        }

    }

    /// What a name stands for, and the context that declares it.
    fn lookup(&self, n: &Name, scope: &mut Vec<Bind>, k: usize) -> (res: Result<(usize, &'e Entry), CheckError>)
        ensures
            match (res, c_lookup(self.model(), n.model(), binds(old(scope)@), judge(self.model(), k as nat))) {
                (Ok(v), Ok(m)) => v.0 == m.0 && v.1.model() == m.1 && binds(final(scope)@) == binds(old(scope)@),
                (Err(e), Err(f)) => e.model() == f,
                _ => false,
            },
        decreases k, 7nat,
    {
        let ghost w = self.model();
        let ghost g = judge(w, k as nat);
        proof {
            reveal(c_lookup);
        }
        match &n.ctx {
            Some(cn) => {
                let ghost cm = cn.name.model();
                let id = match self.context(cn, scope, k) {
                    Ok(x) => x,
                    Err(e) => {
                        return Err(e);
                    },
                };
                match self.find_at(id, &n.id.name) {
                    Some(e) => {
                        return Ok((id, e));
                    },
                    None => {
                        return Err(self.fail(n.span, text5("Undeclared identifier \"", n.id.name.as_str(), "\" in context \"", cn.name.name.as_str(), "\".")));
                    },
                }
            },
            None => {
                match self.find_at(self.here, &n.id.name) {
                    Some(e) => {
                        return Ok((self.here, e));
                    },
                    None => {
                        match self.find_at(0, &n.id.name) {
                            Some(e) => {
                                return Ok((0, e));
                            },
                            None => {
                                return Err(self.fail(n.span, text3("Unknown variable \"", n.id.name.as_str(), "\".")));
                            },
                        }
                    },
                }
            },
        }

    }

    /// The instance that the name of a context stands for.
    pub(crate) fn context(&self, cn: &ContextName, scope: &mut Vec<Bind>, k: usize) -> (res: Result<usize, CheckError>)
        ensures
            match (res, c_context(self.model(), cn.model(), binds(old(scope)@), judge(self.model(), k as nat))) {
                (Ok(v), Ok(m)) => v == m && binds(final(scope)@) == binds(old(scope)@),
                (Err(e), Err(f)) => e.model() == f,
                _ => false,
            },
        decreases k, 6nat,
    {
        let ghost w = self.model();
        let ghost g = judge(w, k as nat);
        proof {
            reveal(c_context);
        }
        let ghost cm = cn.name.model();
        match self.find_alias(cn) {
            Some(id) => {
                return Ok(id);
            },
            None => {
                match find_source(self.lib, &cn.name.name) {
                    None => {
                        return Err(CheckError::Missing(cn.name.name.clone()));
                    },
                    Some(d) => {
                        let ghost dm = self.lib@[d as int].model();
                        proof { assert(w.lib[d as int] == dm); }
                        let fs = list_formals(&self.lib[d].params);
                        if fs.len() != cn.actuals.len() {
                            return Err(self.fail(cn.span, own("Wrong number of actual parameters.")));
                        }
                        let start = Vec::new();
                        proof { assert(binding_views(start@) =~= Seq::empty()); }
                        let bd = match self.actuals(&cn.actuals, &fs, start, scope, k) {
                            Ok(x) => x,
                            Err(e) => {
                                return Err(e);
                            },
                        };
                        return self.found(cn, d, &fs, bd, scope, k);
                    },
                }
            },
        }

    }

    /// The instance with the given actual parameters.
    fn found(&self, cn: &ContextName, d: usize, fs: &Vec<(String, bool)>, bd: Vec<(String, Binding)>, scope: &mut Vec<Bind>, k: usize) -> (res: Result<usize, CheckError>)
        requires
            d < self.lib@.len(),
        ensures
            match (res, c_found(self.model(), cn.model(), d as nat, formal_views(fs@), binding_views(bd@), binds(old(scope)@), judge(self.model(), k as nat))) {
                (Ok(v), Ok(m)) => v == m && binds(final(scope)@) == binds(old(scope)@),
                (Err(e), Err(f)) => e.model() == f,
                _ => false,
            },
        decreases k, 5nat,
    {
        let ghost w = self.model();
        let ghost g = judge(w, k as nat);
        proof {
            reveal(c_found);
        }
        let ghost cm = cn.name.model();
        let key = instance_key(&cn.name.name, &list_parts(&bd));
        match find_instance(self.insts, &key) {
            None => {
                return Err(CheckError::Need(d, key, bd));
            },
            Some(id) => {
                proof { assert(w.insts[id as int] == self.insts@[id as int].model()); }
                proof { assert(w.lib[d as int] == self.lib@[d as int].model()); }
                if self.insts[id].symbols.len() == 0 && self.lib[d].decls.len() > 0 {
                    if self.insts[id].open {
                        return Err(self.cycle(id, d));
                    }
                    return Err(CheckError::Need(d, key, bd));
                }
                let _a = match self.matched(&cn.actuals, &fs, id, scope, k) {
                    Ok(x) => x,
                    Err(e) => {
                        return Err(e);
                    },
                };
                return Ok(id);
            },
        }

    }

    /// The actual parameters one by one.
    fn actuals(&self, v: &Vec<Actual>, fs: &Vec<(String, bool)>, acc0: Vec<(String, Binding)>, scope: &mut Vec<Bind>, k: usize) -> (res: Result<Vec<(String, Binding)>, CheckError>)
        ensures
            match (res, c_actuals(self.model(), actual_models(v@), formal_views(fs@), binding_views(acc0@), binds(old(scope)@), judge(self.model(), k as nat), 0)) {
                (Ok(v), Ok(m)) => binding_views(v@) == m && binds(final(scope)@) == binds(old(scope)@),
                (Err(e), Err(f)) => e.model() == f,
                _ => false,
            },
        decreases k, 5nat,
    {
        let ghost w = self.model();
        let ghost g = judge(w, k as nat);
        let mut acc = acc0;
        let mut i: usize = 0;
        while i < v.len()
            invariant
                i <= v@.len(),
                w == self.model(),
                g == judge(w, k as nat),
                c_actuals(w, actual_models(v@), formal_views(fs@), binding_views(acc@), binds(scope@), g, i as int)
                    == c_actuals(w, actual_models(v@), formal_views(fs@), binding_views(acc0@), binds(old(scope)@), g, 0),
                binds(scope@) == binds(old(scope)@),
            decreases v.len() - i,
        {
            let ghost before = binds(scope@);
            proof {
                reveal_with_fuel(c_actuals, 1);
                assert(actual_models(v@)[i as int] == v@[i as int].model());
            }
            if i >= fs.len() {
                return Ok(acc);
            }
            proof { assert(formal_views(fs@)[i as int] == (fs@[i as int].0@, fs@[i as int].1)); }
            let one = match self.actual(&v[i], fs[i].1, scope, k) {
                Ok(x) => x,
                Err(e) => {
                    return Err(e);
                },
            };
            acc = add_binding(acc, fs[i].0.clone(), one);
            i += 1;
            continue;

        }
        proof {
            reveal_with_fuel(c_actuals, 1);
        }
        Ok(acc)
    }

    /// One actual parameter: its text and its type.
    fn actual(&self, a: &Actual, is_type: bool, scope: &mut Vec<Bind>, k: usize) -> (res: Result<Binding, CheckError>)
        ensures
            match (res, c_actual(self.model(), a.model(), is_type, binds(old(scope)@), judge(self.model(), k as nat))) {
                (Ok(v), Ok(m)) => v.model() == m && binds(final(scope)@) == binds(old(scope)@),
                (Err(e), Err(f)) => e.model() == f,
                _ => false,
            },
        decreases k, 4nat,
    {
        let ghost w = self.model();
        let ghost g = judge(w, k as nat);
        proof {
            reveal(c_actual);
        }
        match a {
            Actual::Type(t) => {
                return self.given_type(t, is_type, scope, k);
            },
            Actual::Expr(e) => {
                if is_type {
                    return self.actual_type(e, scope, k);
                }
                return self.given_value(e, scope, k);
            },
        }

    }

    /// A type as an actual parameter.
    fn given_type(&self, t: &Type, is_type: bool, scope: &mut Vec<Bind>, k: usize) -> (res: Result<Binding, CheckError>)
        ensures
            match (res, c_given_type(self.model(), t.model(), is_type, binds(old(scope)@), judge(self.model(), k as nat))) {
                (Ok(v), Ok(m)) => v.model() == m && binds(final(scope)@) == binds(old(scope)@),
                (Err(e), Err(f)) => e.model() == f,
                _ => false,
            },
        decreases k, 3nat,
    {
        let ghost w = self.model();
        let ghost g = judge(w, k as nat);
        proof {
            reveal(c_given_type);
        }
        if !is_type {
            return Err(self.fail(t.span, own("Expression expected.")));
        }
        let s = match self.ty(t, scope, k) {
            Ok(x) => x,
            Err(e) => {
                return Err(e);
            },
        };
        return Ok(Binding::Type(s, t.dup()));

    }

    /// A value as an actual parameter.
    fn given_value(&self, e: &Expr, scope: &mut Vec<Bind>, k: usize) -> (res: Result<Binding, CheckError>)
        ensures
            match (res, c_given_value(self.model(), e.model(), binds(old(scope)@), judge(self.model(), k as nat))) {
                (Ok(v), Ok(m)) => v.model() == m && binds(final(scope)@) == binds(old(scope)@),
                (Err(e), Err(f)) => e.model() == f,
                _ => false,
            },
        decreases k, 3nat,
    {
        let ghost w = self.model();
        let ghost g = judge(w, k as nat);
        proof {
            reveal(c_given_value);
        }
        let _s = match self.expr(e, scope, k) {
            Ok(x) => x,
            Err(e) => {
                return Err(e);
            },
        };
        return Ok(Binding::Expr(e.dup()));

    }

    /// A name as an actual type.
    fn actual_type(&self, e: &Expr, scope: &mut Vec<Bind>, k: usize) -> (res: Result<Binding, CheckError>)
        ensures
            match (res, c_actual_type(self.model(), e.model(), binds(old(scope)@), judge(self.model(), k as nat))) {
                (Ok(v), Ok(m)) => v.model() == m && binds(final(scope)@) == binds(old(scope)@),
                (Err(e), Err(f)) => e.model() == f,
                _ => false,
            },
        decreases k, 3nat,
    {
        let ghost w = self.model();
        let ghost g = judge(w, k as nat);
        proof {
            reveal(c_actual_type);
        }
        let ghost em = e.kind.model();
        match &e.kind {
            ExprKind::Name(n) => {
                let found = match self.resolve(n, scope, k) {
                    Ok(x) => x,
                    Err(e) => {
                        return Err(e);
                    },
                };
                match found.1 {
                    Entry::Type(s, _d) => {
                        return Ok(Binding::Type(s.clone(), Type { kind: TypeKind::Name(n.dup()), span: e.span }));
                    },
                    _ => {
                        return Err(self.fail(e.span, text3("Unknown type \"", n.id.name.as_str(), "\".")));
                    },
                }
            },
            _ => {
                return Err(self.fail(e.span, own("Type expected.")));
            },
        }

    }

    /// The values given for parameters have the declared types.
    fn matched(&self, v: &Vec<Actual>, fs: &Vec<(String, bool)>, id: usize, scope: &mut Vec<Bind>, k: usize) -> (res: Result<(), CheckError>)
        ensures
            match (res, c_matched(self.model(), actual_models(v@), formal_views(fs@), id as nat, binds(old(scope)@), judge(self.model(), k as nat), 0)) {
                (Ok(v), Ok(m)) => true && binds(final(scope)@) == binds(old(scope)@),
                (Err(e), Err(f)) => e.model() == f,
                _ => false,
            },
        decreases k, 4nat,
    {
        let ghost w = self.model();
        let ghost g = judge(w, k as nat);
        let mut i: usize = 0;
        while i < v.len()
            invariant
                i <= v@.len(),
                w == self.model(),
                g == judge(w, k as nat),
                c_matched(w, actual_models(v@), formal_views(fs@), id as nat, binds(scope@), g, i as int)
                    == c_matched(w, actual_models(v@), formal_views(fs@), id as nat, binds(old(scope)@), g, 0),
                binds(scope@) == binds(old(scope)@),
            decreases v.len() - i,
        {
            let ghost before = binds(scope@);
            proof {
                reveal_with_fuel(c_matched, 1);
                assert(actual_models(v@)[i as int] == v@[i as int].model());
            }
            if i >= fs.len() {
                return Ok(());
            }
            proof { assert(formal_views(fs@)[i as int] == (fs@[i as int].0@, fs@[i as int].1)); }
            let _a = match self.matched_one(&v[i], &fs[i].0, fs[i].1, id, scope, k) {
                Ok(x) => x,
                Err(e) => {
                    return Err(e);
                },
            };
            i += 1;
            continue;

        }
        proof {
            reveal_with_fuel(c_matched, 1);
        }
        Ok(())
    }

    /// A value given for a parameter has the declared type.
    fn matched_one(&self, a: &Actual, f: &String, is_type: bool, id: usize, scope: &mut Vec<Bind>, k: usize) -> (res: Result<(), CheckError>)
        ensures
            match (res, c_matched_one(self.model(), a.model(), f@, is_type, id as nat, binds(old(scope)@), judge(self.model(), k as nat))) {
                (Ok(v), Ok(m)) => true && binds(final(scope)@) == binds(old(scope)@),
                (Err(e), Err(f)) => e.model() == f,
                _ => false,
            },
        decreases k, 3nat,
    {
        let ghost w = self.model();
        let ghost g = judge(w, k as nat);
        proof {
            reveal(c_matched_one);
        }
        match a {
            Actual::Type(_) => {
                return Ok(());
            },
            Actual::Expr(e) => {
                if is_type {
                    return Ok(());
                }
                match self.find_at(id, f) {
                    Some(Entry::Const(s, _v)) => {
                        let t = match self.expr(e, scope, k) {
                            Ok(x) => x,
                            Err(e) => {
                                return Err(e);
                            },
                        };
                        return self.require(e.span, &t, s);
                    },
                    _ => {
                        return Ok(());
                    },
                }
            },
        }

    }

    /// The state variables of a module.
    fn module_kind(&self, x: &Module, scope: &mut Vec<Bind>, k: usize) -> (res: Result<Vec<StateVar>, CheckError>)
        ensures
            match (res, c_module_kind(self.model(), x.model(), binds(old(scope)@), judge(self.model(), k as nat))) {
                (Ok(v), Ok(m)) => var_views(v@) == m && binds(final(scope)@) == binds(old(scope)@),
                (Err(e), Err(f)) => e.model() == f,
                _ => false,
            },
        decreases k, 11nat,
    {
        let ghost w = self.model();
        let ghost g = judge(w, k as nat);
        proof {
            reveal(c_module_kind);
        }
        let ghost xm = x.kind.model();
        match &x.kind {
            ModuleKind::Base(b) => {
                return self.base(b, scope, k);
            },
            ModuleKind::Instance(n, args) => {
                let found = match self.lookup(n, scope, k) {
                    Ok(x) => x,
                    Err(e) => {
                        return Err(e);
                    },
                };
                match found.1 {
                    Entry::Module(ps, vs, _m, _d) => {
                        if ps.len() != args.len() {
                            return Err(self.fail(x.span, count_message(n.id.name.as_str(), ps.len(), args.len())));
                        }
                        let _a = match self.module_args(args, ps, scope, k) {
                            Ok(x) => x,
                            Err(e) => {
                                return Err(e);
                            },
                        };
                        return Ok(copy_vars(vs));
                    },
                    _ => {
                        return Err(self.fail(x.span, text3("\"", n.id.name.as_str(), "\" is not a module.")));
                    },
                }
            },
            ModuleKind::Sync(a, b) => {
                let va = match self.module(a, scope, k) {
                    Ok(x) => x,
                    Err(e) => {
                        return Err(e);
                    },
                };
                let vb = match self.module(b, scope, k) {
                    Ok(x) => x,
                    Err(e) => {
                        return Err(e);
                    },
                };
                return self.merge_states(x.span, va, &vb);
            },
            ModuleKind::Async(a, b) => {
                let va = match self.module(a, scope, k) {
                    Ok(x) => x,
                    Err(e) => {
                        return Err(e);
                    },
                };
                let vb = match self.module(b, scope, k) {
                    Ok(x) => x,
                    Err(e) => {
                        return Err(e);
                    },
                };
                return self.merge_states(x.span, va, &vb);
            },
            ModuleKind::Observe(a, b) => {
                let va = match self.module(a, scope, k) {
                    Ok(x) => x,
                    Err(e) => {
                        return Err(e);
                    },
                };
                let vb = match self.module(b, scope, k) {
                    Ok(x) => x,
                    Err(e) => {
                        return Err(e);
                    },
                };
                return self.merge_states(x.span, va, &vb);
            },
            ModuleKind::MultiSync(d, m) => {
                return self.multi(d, m, scope, k);
            },
            ModuleKind::MultiAsync(d, m) => {
                return self.multi(d, m, scope, k);
            },
            ModuleKind::Hide(ids, m) => {
                let vs = match self.module(m, scope, k) {
                    Ok(x) => x,
                    Err(e) => {
                        return Err(e);
                    },
                };
                return self.reclass(ids, vs, VarClass::Local);
            },
            ModuleKind::NewOutput(ids, m) => {
                let vs = match self.module(m, scope, k) {
                    Ok(x) => x,
                    Err(e) => {
                        return Err(e);
                    },
                };
                return self.reclass(ids, vs, VarClass::Output);
            },
            ModuleKind::Rename(rs, m) => {
                let vs = match self.module(m, scope, k) {
                    Ok(x) => x,
                    Err(e) => {
                        return Err(e);
                    },
                };
                return self.renames(rs, vs, scope, k);
            },
            ModuleKind::With(ds, m) => {
                let mark: usize = scope.len();
                let ghost sc0 = binds(scope@);
                let none = Vec::new();
                proof { assert(var_views(none@) =~= Seq::empty()); }
                let dsc = match self.added(ds, none, scope, k) {
                    Ok(x) => x,
                    Err(e) => {
                        return Err(e);
                    },
                };
                let vs = match self.module(m, scope, k) {
                    Ok(x) => x,
                    Err(e) => {
                        return Err(e);
                    },
                };
                scope.truncate(mark);
                proof { assert(binds(scope@) =~= sc0); }
                return self.merge_states(x.span, dsc, &vs);
            },
        }

    }

    /// The state variables of a module composed with itself.
    fn multi(&self, d: &VarDecl, m: &Module, scope: &mut Vec<Bind>, k: usize) -> (res: Result<Vec<StateVar>, CheckError>)
        ensures
            match (res, c_multi(self.model(), d.model(), m.model(), binds(old(scope)@), judge(self.model(), k as nat))) {
                (Ok(v), Ok(m)) => var_views(v@) == m && binds(final(scope)@) == binds(old(scope)@),
                (Err(e), Err(f)) => e.model() == f,
                _ => false,
            },
        decreases k, 3nat,
    {
        let ghost w = self.model();
        let ghost g = judge(w, k as nat);
        proof {
            reveal(c_multi);
        }
        let it = match self.ty(&d.ty, scope, k) {
            Ok(x) => x,
            Err(e) => {
                return Err(e);
            },
        };
        let mark: usize = scope.len();
        let ghost sc0 = binds(scope@);
        bind_first(scope, &d.names, &it);
        let vs = match self.module(m, scope, k) {
            Ok(x) => x,
            Err(e) => {
                return Err(e);
            },
        };
        scope.truncate(mark);
        proof { assert(binds(scope@) =~= sc0); }
        return Ok(array_locals(vs, &it));

    }

    /// The actual parameters of a module have the declared types.
    fn module_args(&self, v: &Vec<Expr>, ps: &Vec<(String, SemType)>, scope: &mut Vec<Bind>, k: usize) -> (res: Result<(), CheckError>)
        ensures
            match (res, c_module_args(self.model(), expr_models(v@), sem_fields(ps@), binds(old(scope)@), judge(self.model(), k as nat), 0)) {
                (Ok(v), Ok(m)) => true && binds(final(scope)@) == binds(old(scope)@),
                (Err(e), Err(f)) => e.model() == f,
                _ => false,
            },
        decreases k, 3nat,
    {
        let ghost w = self.model();
        let ghost g = judge(w, k as nat);
        let mut i: usize = 0;
        while i < v.len()
            invariant
                i <= v@.len(),
                w == self.model(),
                g == judge(w, k as nat),
                c_module_args(w, expr_models(v@), sem_fields(ps@), binds(scope@), g, i as int)
                    == c_module_args(w, expr_models(v@), sem_fields(ps@), binds(old(scope)@), g, 0),
                binds(scope@) == binds(old(scope)@),
            decreases v.len() - i,
        {
            let ghost before = binds(scope@);
            proof {
                reveal_with_fuel(c_module_args, 1);
                assert(expr_models(v@)[i as int] == v@[i as int].model());
            }
            if i >= ps.len() {
                return Ok(());
            }
            let ghost am = v@[i as int].model();
            proof { assert(sem_fields(ps@)[i as int] == (ps@[i as int].0@, ps@[i as int].1.model())); }
            let t = match self.expr(&v[i], scope, k) {
                Ok(x) => x,
                Err(e) => {
                    return Err(e);
                },
            };
            let _u = match self.require(v[i].span, &t, &ps[i].1) {
                Ok(x) => x,
                Err(e) => {
                    return Err(e);
                },
            };
            i += 1;
            continue;

        }
        proof {
            reveal_with_fuel(c_module_args, 1);
        }
        Ok(())
    }

    /// Renamings one by one.
    fn renames(&self, v: &Vec<(Lhs, Lhs)>, acc0: Vec<StateVar>, scope: &mut Vec<Bind>, k: usize) -> (res: Result<Vec<StateVar>, CheckError>)
        ensures
            match (res, c_renames(self.model(), lhs_lhs_pairs(v@), var_views(acc0@), binds(old(scope)@), judge(self.model(), k as nat), 0)) {
                (Ok(v), Ok(m)) => var_views(v@) == m && binds(final(scope)@) == binds(old(scope)@),
                (Err(e), Err(f)) => e.model() == f,
                _ => false,
            },
        decreases k, 8nat,
    {
        let ghost w = self.model();
        let ghost g = judge(w, k as nat);
        let mut acc = acc0;
        let mut i: usize = 0;
        while i < v.len()
            invariant
                i <= v@.len(),
                w == self.model(),
                g == judge(w, k as nat),
                c_renames(w, lhs_lhs_pairs(v@), var_views(acc@), binds(scope@), g, i as int)
                    == c_renames(w, lhs_lhs_pairs(v@), var_views(acc0@), binds(old(scope)@), g, 0),
                binds(scope@) == binds(old(scope)@),
            decreases v.len() - i,
        {
            let ghost before = binds(scope@);
            proof {
                reveal_with_fuel(c_renames, 1);
                assert(lhs_lhs_pairs(v@)[i as int] == (v@[i as int].0.model(), v@[i as int].1.model()));
            }
            let t = match self.rename_one(&v[i].0, &v[i].1, acc, scope, k) {
                Ok(x) => x,
                Err(e) => {
                    return Err(e);
                },
            };
            acc = t;
            i += 1;
            continue;

        }
        proof {
            reveal_with_fuel(c_renames, 1);
        }
        Ok(acc)
    }

    /// One renaming.
    fn rename_one(&self, a: &Lhs, b: &Lhs, vs: Vec<StateVar>, scope: &mut Vec<Bind>, k: usize) -> (res: Result<Vec<StateVar>, CheckError>)
        ensures
            match (res, c_rename_one(self.model(), a.model(), b.model(), var_views(vs@), binds(old(scope)@), judge(self.model(), k as nat))) {
                (Ok(v), Ok(m)) => var_views(v@) == m && binds(final(scope)@) == binds(old(scope)@),
                (Err(e), Err(f)) => e.model() == f,
                _ => false,
            },
        decreases k, 7nat,
    {
        let ghost w = self.model();
        let ghost g = judge(w, k as nat);
        proof {
            reveal(c_rename_one);
        }
        match find_var(&vs, &a.base.name) {
            None => {
                return Err(self.fail(a.span, text3("Undeclared state variable \"", a.base.name.as_str(), "\".")));
            },
            Some(p) => {
                proof { assert(var_views(vs@)[p as int] == vs@[p as int].model()); }
                if b.accesses.len() == 0 {
                    return Ok(rename_var(vs, p, &b.base.name));
                }
                match find_type(scope, &b.base.name, false) {
                    None => {
                        return Err(self.fail(b.span, text3("Undeclared state variable \"", b.base.name.as_str(), "\".")));
                    },
                    Some(bt) => {
                        let t = match self.accessed(&b.accesses, bt.clone(), b.span, scope, k) {
                            Ok(x) => x,
                            Err(e) => {
                                return Err(e);
                            },
                        };
                        let _u = match self.require(b.span, &vs[p].ty, &t) {
                            Ok(x) => x,
                            Err(e) => {
                                return Err(e);
                            },
                        };
                        return Ok(replace_var(vs, p, &b.base.name, bt));
                    },
                }
            },
        }

    }

    /// Added variables, in scope.
    fn added(&self, v: &Vec<NewVarDecl>, acc0: Vec<StateVar>, scope: &mut Vec<Bind>, k: usize) -> (res: Result<Vec<StateVar>, CheckError>)
        ensures
            match (res, c_added(self.model(), new_var_decl_models(v@), var_views(acc0@), binds(old(scope)@), judge(self.model(), k as nat), 0)) {
                (Ok(v), Ok(m)) => var_views(v@) == m.1 && binds(final(scope)@) == m.0
                    && binds(final(scope)@).len() >= binds(old(scope)@).len()
                    && binds(final(scope)@).take(binds(old(scope)@).len() as int) == binds(old(scope)@),
                (Err(e), Err(f)) => e.model() == f,
                _ => false,
            },
        decreases k, 4nat,
    {
        let ghost w = self.model();
        let ghost g = judge(w, k as nat);
        let mut acc = acc0;
        proof {
            assert(binds(scope@).take(binds(scope@).len() as int) =~= binds(scope@));
        }
        let mut i: usize = 0;
        while i < v.len()
            invariant
                i <= v@.len(),
                w == self.model(),
                g == judge(w, k as nat),
                c_added(w, new_var_decl_models(v@), var_views(acc@), binds(scope@), g, i as int)
                    == c_added(w, new_var_decl_models(v@), var_views(acc0@), binds(old(scope)@), g, 0),
                binds(scope@).len() >= binds(old(scope)@).len(),
                binds(scope@).take(binds(old(scope)@).len() as int) == binds(old(scope)@),
            decreases v.len() - i,
        {
            let ghost before = binds(scope@);
            proof {
                reveal_with_fuel(c_added, 1);
                assert(new_var_decl_models(v@)[i as int] == v@[i as int].model());
            }
            let ghost dm = v@[i as int].model();
            let one = match self.state_decls(&v[i].decls, v[i].class, acc, scope, k) {
                Ok(x) => x,
                Err(e) => {
                    return Err(e);
                },
            };

            acc = one;
            i += 1;
            continue;

        }
        proof {
            reveal_with_fuel(c_added, 1);
        }
        Ok(acc)
    }

    /// Variables of one class, in scope.
    fn state_decls(&self, v: &Vec<VarDecl>, class: VarClass, acc0: Vec<StateVar>, scope: &mut Vec<Bind>, k: usize) -> (res: Result<Vec<StateVar>, CheckError>)
        ensures
            match (res, c_state_decls(self.model(), var_decl_models(v@), class, var_views(acc0@), binds(old(scope)@), judge(self.model(), k as nat), 0)) {
                (Ok(v), Ok(m)) => var_views(v@) == m.1 && binds(final(scope)@) == m.0
                    && binds(final(scope)@).len() >= binds(old(scope)@).len()
                    && binds(final(scope)@).take(binds(old(scope)@).len() as int) == binds(old(scope)@),
                (Err(e), Err(f)) => e.model() == f,
                _ => false,
            },
        decreases k, 3nat,
    {
        let ghost w = self.model();
        let ghost g = judge(w, k as nat);
        let mut acc = acc0;
        proof {
            assert(binds(scope@).take(binds(scope@).len() as int) =~= binds(scope@));
        }
        let mut i: usize = 0;
        while i < v.len()
            invariant
                i <= v@.len(),
                w == self.model(),
                g == judge(w, k as nat),
                c_state_decls(w, var_decl_models(v@), class, var_views(acc@), binds(scope@), g, i as int)
                    == c_state_decls(w, var_decl_models(v@), class, var_views(acc0@), binds(old(scope)@), g, 0),
                binds(scope@).len() >= binds(old(scope)@).len(),
                binds(scope@).take(binds(old(scope)@).len() as int) == binds(old(scope)@),
            decreases v.len() - i,
        {
            let ghost before = binds(scope@);
            proof {
                reveal_with_fuel(c_state_decls, 1);
                assert(var_decl_models(v@)[i as int] == v@[i as int].model());
            }
            let ghost dm = v@[i as int].model();
            let t = match self.ty(&v[i].ty, scope, k) {
                Ok(x) => x,
                Err(e) => {
                    return Err(e);
                },
            };
            acc = append_vars(acc, &v[i].names, class, &t);
            bind_all(scope, &v[i].names, &t, true);
            i += 1;
            continue;

        }
        proof {
            reveal_with_fuel(c_state_decls, 1);
        }
        Ok(acc)
    }

    /// A base module.
    fn base(&self, x: &BaseModule, scope: &mut Vec<Bind>, k: usize) -> (res: Result<Vec<StateVar>, CheckError>)
        ensures
            match (res, c_base(self.model(), x.model(), binds(old(scope)@), judge(self.model(), k as nat))) {
                (Ok(v), Ok(m)) => var_views(v@) == m && binds(final(scope)@) == binds(old(scope)@),
                (Err(e), Err(f)) => e.model() == f,
                _ => false,
            },
        decreases k, 8nat,
    {
        let ghost w = self.model();
        let ghost g = judge(w, k as nat);
        proof {
            reveal(c_base);
        }
        let none = Vec::new();
        proof { assert(var_views(none@) =~= Seq::empty()); }
        let vs = match self.variables(&x.decls, none, scope, k) {
            Ok(x) => x,
            Err(e) => {
                return Err(e);
            },
        };
        let mark: usize = scope.len();
        let ghost sc0 = binds(scope@);
        bind_state(scope, &vs);
        let _a = match self.sections(&x.decls, &vs, scope, k) {
            Ok(x) => x,
            Err(e) => {
                return Err(e);
            },
        };
        scope.truncate(mark);
        proof { assert(binds(scope@) =~= sc0); }
        return Ok(vs);

    }

    /// The declared variables.
    fn variables(&self, v: &Vec<BaseDecl>, acc0: Vec<StateVar>, scope: &mut Vec<Bind>, k: usize) -> (res: Result<Vec<StateVar>, CheckError>)
        ensures
            match (res, c_variables(self.model(), base_decl_models(v@), var_views(acc0@), binds(old(scope)@), judge(self.model(), k as nat), 0)) {
                (Ok(v), Ok(m)) => var_views(v@) == m && binds(final(scope)@) == binds(old(scope)@),
                (Err(e), Err(f)) => e.model() == f,
                _ => false,
            },
        decreases k, 4nat,
    {
        let ghost w = self.model();
        let ghost g = judge(w, k as nat);
        let mut acc = acc0;
        let mut i: usize = 0;
        while i < v.len()
            invariant
                i <= v@.len(),
                w == self.model(),
                g == judge(w, k as nat),
                c_variables(w, base_decl_models(v@), var_views(acc@), binds(scope@), g, i as int)
                    == c_variables(w, base_decl_models(v@), var_views(acc0@), binds(old(scope)@), g, 0),
                binds(scope@) == binds(old(scope)@),
            decreases v.len() - i,
        {
            let ghost before = binds(scope@);
            proof {
                reveal_with_fuel(c_variables, 1);
                assert(base_decl_models(v@)[i as int] == v@[i as int].model());
            }
            match &v[i] {
                BaseDecl::Vars(c, ds) => {
                    let t = match self.groups(ds, *c, acc, scope, k) {
                        Ok(x) => x,
                        Err(e) => {
                            return Err(e);
                        },
                    };
                    acc = t;
                    i += 1;
                    continue;
                },
                _ => {
                    i += 1;
                    continue;
                },
            }

        }
        proof {
            reveal_with_fuel(c_variables, 1);
        }
        Ok(acc)
    }

    /// Variables of one class.
    fn groups(&self, v: &Vec<VarDecl>, class: VarClass, acc0: Vec<StateVar>, scope: &mut Vec<Bind>, k: usize) -> (res: Result<Vec<StateVar>, CheckError>)
        ensures
            match (res, c_groups(self.model(), var_decl_models(v@), class, var_views(acc0@), binds(old(scope)@), judge(self.model(), k as nat), 0)) {
                (Ok(v), Ok(m)) => var_views(v@) == m && binds(final(scope)@) == binds(old(scope)@),
                (Err(e), Err(f)) => e.model() == f,
                _ => false,
            },
        decreases k, 3nat,
    {
        let ghost w = self.model();
        let ghost g = judge(w, k as nat);
        let mut acc = acc0;
        let mut i: usize = 0;
        while i < v.len()
            invariant
                i <= v@.len(),
                w == self.model(),
                g == judge(w, k as nat),
                c_groups(w, var_decl_models(v@), class, var_views(acc@), binds(scope@), g, i as int)
                    == c_groups(w, var_decl_models(v@), class, var_views(acc0@), binds(old(scope)@), g, 0),
                binds(scope@) == binds(old(scope)@),
            decreases v.len() - i,
        {
            let ghost before = binds(scope@);
            proof {
                reveal_with_fuel(c_groups, 1);
                assert(var_decl_models(v@)[i as int] == v@[i as int].model());
            }
            let ghost dm = v@[i as int].model();
            let t = match self.ty(&v[i].ty, scope, k) {
                Ok(x) => x,
                Err(e) => {
                    return Err(e);
                },
            };
            let r = match self.declare_vars(&v[i].names, class, &t, acc) {
                Ok(x) => x,
                Err(e) => {
                    return Err(e);
                },
            };
            acc = r;
            i += 1;
            continue;

        }
        proof {
            reveal_with_fuel(c_groups, 1);
        }
        Ok(acc)
    }

    /// The sections.
    fn sections(&self, v: &Vec<BaseDecl>, vs: &Vec<StateVar>, scope: &mut Vec<Bind>, k: usize) -> (res: Result<(), CheckError>)
        ensures
            match (res, c_sections(self.model(), base_decl_models(v@), var_views(vs@), binds(old(scope)@), judge(self.model(), k as nat), 0)) {
                (Ok(v), Ok(m)) => true && binds(final(scope)@) == binds(old(scope)@),
                (Err(e), Err(f)) => e.model() == f,
                _ => false,
            },
        decreases k, 7nat,
    {
        let ghost w = self.model();
        let ghost g = judge(w, k as nat);
        let mut i: usize = 0;
        while i < v.len()
            invariant
                i <= v@.len(),
                w == self.model(),
                g == judge(w, k as nat),
                c_sections(w, base_decl_models(v@), var_views(vs@), binds(scope@), g, i as int)
                    == c_sections(w, base_decl_models(v@), var_views(vs@), binds(old(scope)@), g, 0),
                binds(scope@) == binds(old(scope)@),
            decreases v.len() - i,
        {
            let ghost before = binds(scope@);
            proof {
                reveal_with_fuel(c_sections, 1);
                assert(base_decl_models(v@)[i as int] == v@[i as int].model());
            }
            match &v[i] {
                BaseDecl::Vars(_, _) => {
                    i += 1;
                    continue;
                },
                BaseDecl::Definition(ds) => {
                    let _a = match self.defs(ds, vs, false, scope, k) {
                        Ok(x) => x,
                        Err(e) => {
                            return Err(e);
                        },
                    };
                    i += 1;
                    continue;
                },
                BaseDecl::Initialization(ds) => {
                    let _a = match self.items(ds, vs, false, scope, k) {
                        Ok(x) => x,
                        Err(e) => {
                            return Err(e);
                        },
                    };
                    i += 1;
                    continue;
                },
                BaseDecl::Transition(ds) => {
                    let _a = match self.items(ds, vs, true, scope, k) {
                        Ok(x) => x,
                        Err(e) => {
                            return Err(e);
                        },
                    };
                    i += 1;
                    continue;
                },
            }

        }
        proof {
            reveal_with_fuel(c_sections, 1);
        }
        Ok(())
    }

    /// Definitions.
    fn defs(&self, v: &Vec<Definition>, vs: &Vec<StateVar>, next: bool, scope: &mut Vec<Bind>, k: usize) -> (res: Result<(), CheckError>)
        ensures
            match (res, c_defs(self.model(), definition_models(v@), var_views(vs@), next, binds(old(scope)@), judge(self.model(), k as nat), 0)) {
                (Ok(v), Ok(m)) => true && binds(final(scope)@) == binds(old(scope)@),
                (Err(e), Err(f)) => e.model() == f,
                _ => false,
            },
        decreases k, 4nat,
    {
        let ghost w = self.model();
        let ghost g = judge(w, k as nat);
        let mut i: usize = 0;
        while i < v.len()
            invariant
                i <= v@.len(),
                w == self.model(),
                g == judge(w, k as nat),
                c_defs(w, definition_models(v@), var_views(vs@), next, binds(scope@), g, i as int)
                    == c_defs(w, definition_models(v@), var_views(vs@), next, binds(old(scope)@), g, 0),
                binds(scope@) == binds(old(scope)@),
            decreases v.len() - i,
        {
            let ghost before = binds(scope@);
            proof {
                reveal_with_fuel(c_defs, 1);
                assert(definition_models(v@)[i as int] == v@[i as int].model());
            }
            let _a = match self.definition(&v[i], vs, next, scope, k) {
                Ok(x) => x,
                Err(e) => {
                    return Err(e);
                },
            };
            i += 1;
            continue;

        }
        proof {
            reveal_with_fuel(c_defs, 1);
        }
        Ok(())
    }

    /// Commands.
    fn cmds(&self, v: &Vec<SomeCommand>, vs: &Vec<StateVar>, next: bool, scope: &mut Vec<Bind>, k: usize) -> (res: Result<(), CheckError>)
        ensures
            match (res, c_cmds(self.model(), some_command_models(v@), var_views(vs@), next, binds(old(scope)@), judge(self.model(), k as nat), 0)) {
                (Ok(v), Ok(m)) => true && binds(final(scope)@) == binds(old(scope)@),
                (Err(e), Err(f)) => e.model() == f,
                _ => false,
            },
        decreases k, 4nat,
    {
        let ghost w = self.model();
        let ghost g = judge(w, k as nat);
        let mut i: usize = 0;
        while i < v.len()
            invariant
                i <= v@.len(),
                w == self.model(),
                g == judge(w, k as nat),
                c_cmds(w, some_command_models(v@), var_views(vs@), next, binds(scope@), g, i as int)
                    == c_cmds(w, some_command_models(v@), var_views(vs@), next, binds(old(scope)@), g, 0),
                binds(scope@) == binds(old(scope)@),
            decreases v.len() - i,
        {
            let ghost before = binds(scope@);
            proof {
                reveal_with_fuel(c_cmds, 1);
                assert(some_command_models(v@)[i as int] == v@[i as int].model());
            }
            let _a = match self.command(&v[i], vs, next, scope, k) {
                Ok(x) => x,
                Err(e) => {
                    return Err(e);
                },
            };
            i += 1;
            continue;

        }
        proof {
            reveal_with_fuel(c_cmds, 1);
        }
        Ok(())
    }

    /// Definitions and commands.
    fn items(&self, v: &Vec<DefOrCommand>, vs: &Vec<StateVar>, next: bool, scope: &mut Vec<Bind>, k: usize) -> (res: Result<(), CheckError>)
        ensures
            match (res, c_items(self.model(), def_or_command_models(v@), var_views(vs@), next, binds(old(scope)@), judge(self.model(), k as nat), 0)) {
                (Ok(v), Ok(m)) => true && binds(final(scope)@) == binds(old(scope)@),
                (Err(e), Err(f)) => e.model() == f,
                _ => false,
            },
        decreases k, 6nat,
    {
        let ghost w = self.model();
        let ghost g = judge(w, k as nat);
        let mut i: usize = 0;
        while i < v.len()
            invariant
                i <= v@.len(),
                w == self.model(),
                g == judge(w, k as nat),
                c_items(w, def_or_command_models(v@), var_views(vs@), next, binds(scope@), g, i as int)
                    == c_items(w, def_or_command_models(v@), var_views(vs@), next, binds(old(scope)@), g, 0),
                binds(scope@) == binds(old(scope)@),
            decreases v.len() - i,
        {
            let ghost before = binds(scope@);
            proof {
                reveal_with_fuel(c_items, 1);
                assert(def_or_command_models(v@)[i as int] == v@[i as int].model());
            }
            match &v[i] {
                DefOrCommand::Def(d) => {
                    let _a = match self.definition(d, vs, next, scope, k) {
                        Ok(x) => x,
                        Err(e) => {
                            return Err(e);
                        },
                    };
                    i += 1;
                    continue;
                },
                DefOrCommand::Commands(cs, _s) => {
                    let _a = match self.cmds(cs, vs, next, scope, k) {
                        Ok(x) => x,
                        Err(e) => {
                            return Err(e);
                        },
                    };
                    i += 1;
                    continue;
                },
            }

        }
        proof {
            reveal_with_fuel(c_items, 1);
        }
        Ok(())
    }

    /// A definition.
    fn def_body(&self, x: &Definition, vs: &Vec<StateVar>, next: bool, scope: &mut Vec<Bind>, k: usize) -> (res: Result<(), CheckError>)
        ensures
            match (res, c_def_body(self.model(), x.model(), var_views(vs@), next, binds(old(scope)@), judge(self.model(), k as nat))) {
                (Ok(v), Ok(m)) => true && binds(final(scope)@) == binds(old(scope)@),
                (Err(e), Err(f)) => e.model() == f,
                _ => false,
            },
        decreases k, 9nat,
    {
        let ghost w = self.model();
        let ghost g = judge(w, k as nat);
        proof {
            reveal(c_def_body);
        }
        match x {
            Definition::Forall(ds, defs) => {
                let mark: usize = scope.len();
                let ghost sc0 = binds(scope@);
                let none = Vec::new();
                proof { assert(sem_models(none@) =~= Seq::empty()); }
                let dsc = match self.declare(ds, none, scope, k) {
                    Ok(x) => x,
                    Err(e) => {
                        return Err(e);
                    },
                };
                let _a = match self.defs(defs, vs, next, scope, k) {
                    Ok(x) => x,
                    Err(e) => {
                        return Err(e);
                    },
                };
                scope.truncate(mark);
                proof { assert(binds(scope@) =~= sc0); }
                return Ok(());
            },
            Definition::Simple(s) => {
                let ghost sm = s.model();
                let ghost lm = s.lhs.model();
                return self.simple(&s.lhs, &s.rhs, vs, next, scope, k);
            },
        }

    }

    /// A definition of one left side.
    fn simple(&self, l: &Lhs, r: &Rhs, vs: &Vec<StateVar>, next: bool, scope: &mut Vec<Bind>, k: usize) -> (res: Result<(), CheckError>)
        ensures
            match (res, c_simple(self.model(), l.model(), r.model(), var_views(vs@), next, binds(old(scope)@), judge(self.model(), k as nat))) {
                (Ok(v), Ok(m)) => true && binds(final(scope)@) == binds(old(scope)@),
                (Err(e), Err(f)) => e.model() == f,
                _ => false,
            },
        decreases k, 8nat,
    {
        let ghost w = self.model();
        let ghost g = judge(w, k as nat);
        proof {
            reveal(c_simple);
        }
        match find_var(vs, &l.base.name) {
            None => {
                return Err(self.fail(l.span, text3("Undeclared state variable \"", l.base.name.as_str(), "\".")));
            },
            Some(p) => {
                proof { assert(var_views(vs@)[p as int] == vs@[p as int].model()); }
                if vs[p].class == VarClass::Input {
                    return Err(self.fail(l.span, text3("Input variable \"", l.base.name.as_str(), "\" cannot be assigned.")));
                }
                if l.next && !next {
                    return Err(self.fail(l.span, own("Next-state variables are not allowed here.")));
                }
                return self.assigned(l, r, vs[p].ty.clone(), scope, k);
            },
        }

    }

    /// The right side of a definition agrees with its left side.
    fn assigned(&self, l: &Lhs, r: &Rhs, t: SemType, scope: &mut Vec<Bind>, k: usize) -> (res: Result<(), CheckError>)
        ensures
            match (res, c_assigned(self.model(), l.model(), r.model(), t.model(), binds(old(scope)@), judge(self.model(), k as nat))) {
                (Ok(v), Ok(m)) => true && binds(final(scope)@) == binds(old(scope)@),
                (Err(e), Err(f)) => e.model() == f,
                _ => false,
            },
        decreases k, 7nat,
    {
        let ghost w = self.model();
        let ghost g = judge(w, k as nat);
        proof {
            reveal(c_assigned);
        }
        let lt = match self.accessed(&l.accesses, t, l.span, scope, k) {
            Ok(x) => x,
            Err(e) => {
                return Err(e);
            },
        };
        return self.agreeing(r, lt, scope, k);

    }

    /// The right side of a definition agrees with a type.
    fn agreeing(&self, r: &Rhs, lt: SemType, scope: &mut Vec<Bind>, k: usize) -> (res: Result<(), CheckError>)
        ensures
            match (res, c_agreeing(self.model(), r.model(), lt.model(), binds(old(scope)@), judge(self.model(), k as nat))) {
                (Ok(v), Ok(m)) => true && binds(final(scope)@) == binds(old(scope)@),
                (Err(e), Err(f)) => e.model() == f,
                _ => false,
            },
        decreases k, 5nat,
    {
        let ghost w = self.model();
        let ghost g = judge(w, k as nat);
        proof {
            reveal(c_agreeing);
        }
        let (among, e) = rhs_parts(r);
        proof {
            rhs_expr(*e);
            rhs_selection(*e);
        }
        self.agreeing_with(among, e, lt, scope, k)
    }

    /// An expression agrees with a type, or with that of sets of its values.
    fn agreeing_with(&self, among: bool, e: &Expr, lt: SemType, scope: &mut Vec<Bind>, k: usize) -> (res: Result<
        (),
        CheckError,
    >)
        ensures
            match (
                res,
                c_agreeing_with(
                    self.model(),
                    among,
                    e.model(),
                    lt.model(),
                    binds(old(scope)@),
                    judge(self.model(), k as nat),
                ),
            ) {
                (Ok(v), Ok(m)) => binds(final(scope)@) == binds(old(scope)@),
                (Err(e), Err(f)) => e.model() == f,
                _ => false,
            },
        decreases k, 4nat,
    {
        proof {
            reveal(c_agreeing_with);
            assert(e.model().span == e.span);
        }
        match self.expr(e, scope, k) {
            Err(f) => Err(f),
            Ok(et) => if among {
                self.require(e.span, &et, &fun_type(lt, SemType::Bool))
            } else {
                self.require(e.span, &et, &lt)
            },
        }
    }

    /// A command.
    fn cmd_body(&self, x: &SomeCommand, vs: &Vec<StateVar>, next: bool, scope: &mut Vec<Bind>, k: usize) -> (res: Result<(), CheckError>)
        ensures
            match (res, c_cmd_body(self.model(), x.model(), var_views(vs@), next, binds(old(scope)@), judge(self.model(), k as nat))) {
                (Ok(v), Ok(m)) => true && binds(final(scope)@) == binds(old(scope)@),
                (Err(e), Err(f)) => e.model() == f,
                _ => false,
            },
        decreases k, 7nat,
    {
        let ghost w = self.model();
        let ghost g = judge(w, k as nat);
        proof {
            reveal(c_cmd_body);
        }
        match x {
            SomeCommand::Multi(ds, c, _s) => {
                let mark: usize = scope.len();
                let ghost sc0 = binds(scope@);
                let none = Vec::new();
                proof { assert(sem_models(none@) =~= Seq::empty()); }
                let dsc = match self.declare(ds, none, scope, k) {
                    Ok(x) => x,
                    Err(e) => {
                        return Err(e);
                    },
                };
                let _a = match self.command(c, vs, next, scope, k) {
                    Ok(x) => x,
                    Err(e) => {
                        return Err(e);
                    },
                };
                scope.truncate(mark);
                proof { assert(binds(scope@) =~= sc0); }
                return Ok(());
            },
            SomeCommand::Guarded(gc) => {
                let ghost gm = gc.model();
                return self.guarded(gc, vs, next, scope, k);
            },
        }

    }

    /// A guarded command.
    fn guarded(&self, x: &GuardedCommand, vs: &Vec<StateVar>, next: bool, scope: &mut Vec<Bind>, k: usize) -> (res: Result<(), CheckError>)
        ensures
            match (res, c_guarded(self.model(), x.model(), var_views(vs@), next, binds(old(scope)@), judge(self.model(), k as nat))) {
                (Ok(v), Ok(m)) => true && binds(final(scope)@) == binds(old(scope)@),
                (Err(e), Err(f)) => e.model() == f,
                _ => false,
            },
        decreases k, 6nat,
    {
        let ghost w = self.model();
        let ghost g = judge(w, k as nat);
        proof {
            reveal(c_guarded);
        }
        let _a = match self.guard(&x.guard, scope, k) {
            Ok(x) => x,
            Err(e) => {
                return Err(e);
            },
        };
        return self.defs(&x.assignments, vs, next, scope, k);

    }

    /// The guard of a command.
    fn guard(&self, x: &Option<Expr>, scope: &mut Vec<Bind>, k: usize) -> (res: Result<(), CheckError>)
        ensures
            match (res, c_guard(self.model(), opt_expr(*x), binds(old(scope)@), judge(self.model(), k as nat))) {
                (Ok(v), Ok(m)) => true && binds(final(scope)@) == binds(old(scope)@),
                (Err(e), Err(f)) => e.model() == f,
                _ => false,
            },
        decreases k, 3nat,
    {
        let ghost w = self.model();
        let ghost g = judge(w, k as nat);
        proof {
            reveal(c_guard);
        }
        match x {
            Some(e) => {
                let t = match self.expr(e, scope, k) {
                    Ok(x) => x,
                    Err(e) => {
                        return Err(e);
                    },
                };
                return self.require(e.span, &t, &SemType::Bool);
            },
            None => {
                return Ok(());
            },
        }

    }

    /// The names and types of declared variables, none of them in scope of another.
    fn fields_of(&self, v: &Vec<VarDecl>, acc0: Vec<(String, SemType)>, scope: &mut Vec<Bind>, k: usize) -> (res: Result<Vec<(String, SemType)>, CheckError>)
        ensures
            match (res, c_fields_of(self.model(), var_decl_models(v@), sem_fields(acc0@), binds(old(scope)@), judge(self.model(), k as nat), 0)) {
                (Ok(v), Ok(m)) => sem_fields(v@) == m && binds(final(scope)@) == binds(old(scope)@),
                (Err(e), Err(f)) => e.model() == f,
                _ => false,
            },
        decreases k, 3nat,
    {
        let ghost w = self.model();
        let ghost g = judge(w, k as nat);
        let mut acc = acc0;
        let mut i: usize = 0;
        while i < v.len()
            invariant
                i <= v@.len(),
                w == self.model(),
                g == judge(w, k as nat),
                c_fields_of(w, var_decl_models(v@), sem_fields(acc@), binds(scope@), g, i as int)
                    == c_fields_of(w, var_decl_models(v@), sem_fields(acc0@), binds(old(scope)@), g, 0),
                binds(scope@) == binds(old(scope)@),
            decreases v.len() - i,
        {
            let ghost before = binds(scope@);
            proof {
                reveal_with_fuel(c_fields_of, 1);
                assert(var_decl_models(v@)[i as int] == v@[i as int].model());
            }
            let ghost dm = v@[i as int].model();
            let t = match self.ty(&v[i].ty, scope, k) {
                Ok(x) => x,
                Err(e) => {
                    return Err(e);
                },
            };
            acc = append_fields(acc, &v[i].names, &t);
            i += 1;
            continue;

        }
        proof {
            reveal_with_fuel(c_fields_of, 1);
        }
        Ok(acc)
    }

    /// The names and types of parameters, which come into scope.
    fn signature(&self, v: &Vec<VarDecl>, acc0: Vec<(String, SemType)>, scope: &mut Vec<Bind>, k: usize) -> (res: Result<Vec<(String, SemType)>, CheckError>)
        ensures
            match (res, c_signature(self.model(), var_decl_models(v@), sem_fields(acc0@), binds(old(scope)@), judge(self.model(), k as nat), 0)) {
                (Ok(v), Ok(m)) => sem_fields(v@) == m.1 && binds(final(scope)@) == m.0
                    && binds(final(scope)@).len() >= binds(old(scope)@).len()
                    && binds(final(scope)@).take(binds(old(scope)@).len() as int) == binds(old(scope)@),
                (Err(e), Err(f)) => e.model() == f,
                _ => false,
            },
        decreases k, 3nat,
    {
        let ghost w = self.model();
        let ghost g = judge(w, k as nat);
        let mut acc = acc0;
        proof {
            assert(binds(scope@).take(binds(scope@).len() as int) =~= binds(scope@));
        }
        let mut i: usize = 0;
        while i < v.len()
            invariant
                i <= v@.len(),
                w == self.model(),
                g == judge(w, k as nat),
                c_signature(w, var_decl_models(v@), sem_fields(acc@), binds(scope@), g, i as int)
                    == c_signature(w, var_decl_models(v@), sem_fields(acc0@), binds(old(scope)@), g, 0),
                binds(scope@).len() >= binds(old(scope)@).len(),
                binds(scope@).take(binds(old(scope)@).len() as int) == binds(old(scope)@),
            decreases v.len() - i,
        {
            let ghost before = binds(scope@);
            proof {
                reveal_with_fuel(c_signature, 1);
                assert(var_decl_models(v@)[i as int] == v@[i as int].model());
            }
            let ghost dm = v@[i as int].model();
            let t = match self.ty(&v[i].ty, scope, k) {
                Ok(x) => x,
                Err(e) => {
                    return Err(e);
                },
            };
            acc = append_fields(acc, &v[i].names, &t);
            bind_all(scope, &v[i].names, &t, false);
            i += 1;
            continue;

        }
        proof {
            reveal_with_fuel(c_signature, 1);
        }
        Ok(acc)
    }

    /// What a parameter of a context declares.
    pub(crate) fn param(&self, p: &CtxParam, key: &String, types: &Vec<(String, Binding)>, scope: &mut Vec<Bind>, k: usize) -> (res: Result<Vec<(String, Entry)>, CheckError>)
        ensures
            match (res, c_param(self.model(), p.model(), key@, binding_views(types@), binds(old(scope)@), judge(self.model(), k as nat))) {
                (Ok(v), Ok(m)) => symbol_views(v@) == m && binds(final(scope)@) == binds(old(scope)@),
                (Err(e), Err(f)) => e.model() == f,
                _ => false,
            },
        decreases k, 3nat,
    {
        let ghost w = self.model();
        let ghost g = judge(w, k as nat);
        proof {
            reveal(c_param);
        }
        match p {
            CtxParam::Types(ids) => {
                return Ok(list_type_params(ids, key, types));
            },
            CtxParam::Vars(ids, ty) => {
                let t = match self.ty(ty, scope, k) {
                    Ok(x) => x,
                    Err(e) => {
                        return Err(e);
                    },
                };
                return Ok(list_consts(ids, &t));
            },
        }

    }

    /// A step of the declaration of a type.
    fn type_decl(&self, name: &Ident, def: &Option<TypeDef>, key: &String, j: usize, scope: &mut Vec<Bind>, k: usize) -> (res: Result<Vec<(String, Entry)>, CheckError>)
        ensures
            match (res, c_type_decl(self.model(), name.model(), opt_type_def(*def), key@, j as nat, binds(old(scope)@), judge(self.model(), k as nat))) {
                (Ok(v), Ok(m)) => symbol_views(v@) == m && binds(final(scope)@) == binds(old(scope)@),
                (Err(e), Err(f)) => e.model() == f,
                _ => false,
            },
        decreases k, 5nat,
    {
        let ghost w = self.model();
        let ghost g = judge(w, k as nat);
        proof {
            reveal(c_type_decl);
        }
        let ghost nm = name.model();
        match def {
            None => {
                return Ok(one_entry(&name.name, Entry::Type(SemType::Uninterp(type_id(key, &name.name)), None)));
            },
            Some(TypeDef::Type(t)) => {
                let s = match self.ty(t, scope, k) {
                    Ok(x) => x,
                    Err(e) => {
                        return Err(e);
                    },
                };
                return Ok(one_entry(&name.name, Entry::Type(s, dup_type_def(def))));
            },
            Some(TypeDef::Scalar(ids)) => {
                let s = SemType::Scalar(type_id(key, &name.name));
                return Ok(list_scalar(&name.name, ids, s, dup_type_def(def)));
            },
            Some(TypeDef::Datatype(cs)) => {
                let s = SemType::Datatype(type_id(key, &name.name));
                if j == 0 || j > cs.len() {
                    return Ok(one_entry(&name.name, Entry::Type(s, dup_type_def(def))));
                }
                let ghost cm = cs@[j - 1].model();
                proof { assert(constructor_models(cs@)[j - 1] == cm); }
                return self.constructor(&cs[j - 1], s, scope, k);
            },
            Some(TypeDef::Scalarset(e)) => {
                return self.sized(name, e, def, key, scope, k);
            },
            Some(TypeDef::Ringset(e)) => {
                return self.sized(name, e, def, key, scope, k);
            },
        }

    }

    /// What a constructor of a datatype declares.
    fn constructor(&self, c: &Constructor, s: SemType, scope: &mut Vec<Bind>, k: usize) -> (res: Result<Vec<(String, Entry)>, CheckError>)
        ensures
            match (res, c_constructor(self.model(), c.model(), s.model(), binds(old(scope)@), judge(self.model(), k as nat))) {
                (Ok(v), Ok(m)) => symbol_views(v@) == m && binds(final(scope)@) == binds(old(scope)@),
                (Err(e), Err(f)) => e.model() == f,
                _ => false,
            },
        decreases k, 4nat,
    {
        let ghost w = self.model();
        let ghost g = judge(w, k as nat);
        proof {
            reveal(c_constructor);
        }
        let none = Vec::new();
        proof { assert(sem_fields(none@) =~= Seq::empty()); }
        let ghost nm = c.name.model();
        let fs = match self.fields_of(&c.accessors, none, scope, k) {
            Ok(x) => x,
            Err(e) => {
                return Err(e);
            },
        };
        return Ok(list_constructed(&c.name.name, &fs, s));

    }

    /// A type given by its size.
    fn sized(&self, name: &Ident, e: &Expr, def: &Option<TypeDef>, key: &String, scope: &mut Vec<Bind>, k: usize) -> (res: Result<Vec<(String, Entry)>, CheckError>)
        ensures
            match (res, c_sized(self.model(), name.model(), e.model(), opt_type_def(*def), key@, binds(old(scope)@), judge(self.model(), k as nat))) {
                (Ok(v), Ok(m)) => symbol_views(v@) == m && binds(final(scope)@) == binds(old(scope)@),
                (Err(e), Err(f)) => e.model() == f,
                _ => false,
            },
        decreases k, 3nat,
    {
        let ghost w = self.model();
        let ghost g = judge(w, k as nat);
        proof {
            reveal(c_sized);
        }
        let ghost nm = name.model();
        let t = match self.expr(e, scope, k) {
            Ok(x) => x,
            Err(e) => {
                return Err(e);
            },
        };
        let _u = match self.require(e.span, &t, &SemType::Number) {
            Ok(x) => x,
            Err(e) => {
                return Err(e);
            },
        };
        return Ok(one_entry(&name.name, Entry::Type(SemType::Scalar(type_id(key, &name.name)), dup_type_def(def))));

    }

    /// The type of a declared constant.
    fn const_head(&self, name: &Ident, args: &Vec<VarDecl>, ty: &Type, value: &Option<Expr>, scope: &mut Vec<Bind>, k: usize) -> (res: Result<Vec<(String, Entry)>, CheckError>)
        ensures
            match (res, c_const_head(self.model(), name.model(), var_decl_models(args@), ty.model(), opt_expr(*value), binds(old(scope)@), judge(self.model(), k as nat))) {
                (Ok(v), Ok(m)) => symbol_views(v@) == m && binds(final(scope)@) == binds(old(scope)@),
                (Err(e), Err(f)) => e.model() == f,
                _ => false,
            },
        decreases k, 4nat,
    {
        let ghost w = self.model();
        let ghost g = judge(w, k as nat);
        proof {
            reveal(c_const_head);
        }
        let none = Vec::new();
        proof { assert(sem_fields(none@) =~= Seq::empty()); }
        let ghost nm = name.model();
        let rng = match self.ty(ty, scope, k) {
            Ok(x) => x,
            Err(e) => {
                return Err(e);
            },
        };
        if args.len() == 0 {
            return Ok(one_entry(&name.name, Entry::Const(rng, dup_opt_expr(value))));
        }
        let fs = match self.fields_of(args, none, scope, k) {
            Ok(x) => x,
            Err(e) => {
                return Err(e);
            },
        };
        return Ok(one_entry(&name.name, Entry::Const(fun_type(pack(types_only(&fs)), rng), make_lambda(args, value))));

    }

    /// The value of a declared constant has its type.
    fn const_value(&self, name: &Ident, args: &Vec<VarDecl>, v: &Expr, scope: &mut Vec<Bind>, k: usize) -> (res: Result<Vec<(String, Entry)>, CheckError>)
        ensures
            match (res, c_const_value(self.model(), name.model(), var_decl_models(args@), v.model(), binds(old(scope)@), judge(self.model(), k as nat))) {
                (Ok(v), Ok(m)) => symbol_views(v@) == m && binds(final(scope)@) == binds(old(scope)@),
                (Err(e), Err(f)) => e.model() == f,
                _ => false,
            },
        decreases k, 4nat,
    {
        let ghost w = self.model();
        let ghost g = judge(w, k as nat);
        proof {
            reveal(c_const_value);
        }
        let mark: usize = scope.len();
        let ghost sc0 = binds(scope@);
        let none = Vec::new();
        proof { assert(sem_models(none@) =~= Seq::empty()); }
        let ghost nm = name.model();
        let dsc = match self.declare(args, none, scope, k) {
            Ok(x) => x,
            Err(e) => {
                return Err(e);
            },
        };
        let vt = match self.expr(v, scope, k) {
            Ok(x) => x,
            Err(e) => {
                return Err(e);
            },
        };
        scope.truncate(mark);
        proof { assert(binds(scope@) =~= sc0); }
        let rng = self.find_range(&name.name, args.len() == 0);
        let _u = match self.require(v.span, &vt, &rng) {
            Ok(x) => x,
            Err(e) => {
                return Err(e);
            },
        };
        return Ok(no_entries());

    }

    /// The declaration of a module.
    fn module_decl(&self, name: &Ident, ps: &Vec<VarDecl>, m: &Module, scope: &mut Vec<Bind>, k: usize) -> (res: Result<Vec<(String, Entry)>, CheckError>)
        ensures
            match (res, c_module_decl(self.model(), name.model(), var_decl_models(ps@), m.model(), binds(old(scope)@), judge(self.model(), k as nat))) {
                (Ok(v), Ok(m)) => symbol_views(v@) == m && binds(final(scope)@) == binds(old(scope)@),
                (Err(e), Err(f)) => e.model() == f,
                _ => false,
            },
        decreases k, 4nat,
    {
        let ghost w = self.model();
        let ghost g = judge(w, k as nat);
        proof {
            reveal(c_module_decl);
        }
        let mark: usize = scope.len();
        let ghost sc0 = binds(scope@);
        let none = Vec::new();
        proof { assert(sem_fields(none@) =~= Seq::empty()); }
        let ghost nm = name.model();
        let dsc = match self.signature(ps, none, scope, k) {
            Ok(x) => x,
            Err(e) => {
                return Err(e);
            },
        };
        let vs = match self.module(m, scope, k) {
            Ok(x) => x,
            Err(e) => {
                return Err(e);
            },
        };
        scope.truncate(mark);
        proof { assert(binds(scope@) =~= sc0); }
        return Ok(one_entry(&name.name, Entry::Module(dsc, vs, m.dup(), dup_var_decls(ps))));

    }

    /// What an assertion claims.
    fn assertion(&self, x: &AssertionExpr, scope: &mut Vec<Bind>, k: usize) -> (res: Result<(), CheckError>)
        ensures
            match (res, c_assertion(self.model(), x.model(), binds(old(scope)@), judge(self.model(), k as nat))) {
                (Ok(v), Ok(m)) => true && binds(final(scope)@) == binds(old(scope)@),
                (Err(e), Err(f)) => e.model() == f,
                _ => false,
            },
        decreases k, 3nat,
    {
        let ghost w = self.model();
        let ghost g = judge(w, k as nat);
        proof {
            reveal(c_assertion);
        }
        match x {
            AssertionExpr::Models { module, formula } => {
                let vs = match self.module(module, scope, k) {
                    Ok(x) => x,
                    Err(e) => {
                        return Err(e);
                    },
                };
                let mark: usize = scope.len();
                let ghost sc0 = binds(scope@);
                bind_state(scope, &vs);
                let t = match self.expr(formula, scope, k) {
                    Ok(x) => x,
                    Err(e) => {
                        return Err(e);
                    },
                };
                scope.truncate(mark);
                proof { assert(binds(scope@) =~= sc0); }
                proof { assert(formula.model().span == formula.span); }
                return self.require(formula.span, &t, &SemType::Bool);
            },
            AssertionExpr::Implements { concrete, abstract_ } => {
                let _a = match self.module(concrete, scope, k) {
                    Ok(x) => x,
                    Err(e) => {
                        return Err(e);
                    },
                };
                let _b = match self.module(abstract_, scope, k) {
                    Ok(x) => x,
                    Err(e) => {
                        return Err(e);
                    },
                };
                return Ok(());
            },
        }

    }

    /// A step of a declaration: the entries that it adds.
    pub(crate) fn decl(&self, d: &Decl, key: &String, j: usize, scope: &mut Vec<Bind>, k: usize) -> (res: Result<Vec<(String, Entry)>, CheckError>)
        ensures
            match (res, c_decl(self.model(), d.model(), key@, j as nat, binds(old(scope)@), judge(self.model(), k as nat))) {
                (Ok(v), Ok(m)) => symbol_views(v@) == m && binds(final(scope)@) == binds(old(scope)@),
                (Err(e), Err(f)) => e.model() == f,
                _ => false,
            },
        decreases k, 10nat,
    {
        let ghost w = self.model();
        let ghost g = judge(w, k as nat);
        proof {
            reveal(c_decl);
        }
        match d {
            Decl::Type { name, def } => {
                return self.type_decl(name, def, key, j, scope, k);
            },
            Decl::Constant { name, args, ty, value } => {
                if j == 0 {
                    return self.const_head(name, args, ty, value, scope, k);
                }
                match value {
                    Some(v) => {
                        return self.const_value(name, args, v, scope, k);
                    },
                    None => {
                        return Ok(no_entries());
                    },
                }
            },
            Decl::Context { name, ctx } => {
                let ghost nm = name.model();
                let id = match self.context(ctx, scope, k) {
                    Ok(x) => x,
                    Err(e) => {
                        return Err(e);
                    },
                };
                return Ok(one_entry(&name.name, Entry::Ctx(id)));
            },
            Decl::Module { name, params, body } => {
                return self.module_decl(name, params, body, scope, k);
            },
            Decl::Assertion { name, form, body } => {
                let ghost nm = name.model();
                let _a = match self.assertion(body, scope, k) {
                    Ok(x) => x,
                    Err(e) => {
                        return Err(e);
                    },
                };
                return Ok(one_entry(&name.name, Entry::Assertion(*form, body.dup())));
            },
            Decl::Import { ctx, renames } => {
                let id = match self.context(ctx, scope, k) {
                    Ok(x) => x,
                    Err(e) => {
                        return Err(e);
                    },
                };
                return Ok(self.import(id, renames));
            },
        }

    }

    fn resolve(&self, x: &Name, scope: &mut Vec<Bind>, k: usize) -> (r: Result<(usize, &'e Entry), CheckError>)
        ensures
            match (r, (judge(self.model(), k as nat).name)(x.model(), binds(old(scope)@))) {
                (Ok(v), Ok(m)) => v.0 == m.0 && v.1.model() == m.1 && binds(final(scope)@) == binds(old(scope)@),
                (Err(e), Err(f)) => e.model() == f,
                _ => false,
            },
        decreases k, 0nat,
    {
        proof {
            judge_rules(self.model(), k as nat);
        }
        if k == 0 {
            return Err(CheckError::Deep);
        }
        self.lookup(x, scope, k - 1)
    }

    fn expr(&self, x: &Expr, scope: &mut Vec<Bind>, k: usize) -> (r: Result<SemType, CheckError>)
        ensures
            match (r, (judge(self.model(), k as nat).expr)(x.model(), binds(old(scope)@))) {
                (Ok(v), Ok(m)) => v.model() == m && binds(final(scope)@) == binds(old(scope)@),
                (Err(e), Err(f)) => e.model() == f,
                _ => false,
            },
        decreases k, 0nat,
    {
        proof {
            judge_rules(self.model(), k as nat);
        }
        if k == 0 {
            return Err(CheckError::Deep);
        }
        self.infer(x, scope, k - 1)
    }

    fn ty(&self, x: &Type, scope: &mut Vec<Bind>, k: usize) -> (r: Result<SemType, CheckError>)
        ensures
            match (r, (judge(self.model(), k as nat).ty)(x.model(), binds(old(scope)@))) {
                (Ok(v), Ok(m)) => v.model() == m && binds(final(scope)@) == binds(old(scope)@),
                (Err(e), Err(f)) => e.model() == f,
                _ => false,
            },
        decreases k, 0nat,
    {
        proof {
            judge_rules(self.model(), k as nat);
        }
        if k == 0 {
            return Err(CheckError::Deep);
        }
        self.type_kind(x, scope, k - 1)
    }

    fn module(&self, x: &Module, scope: &mut Vec<Bind>, k: usize) -> (r: Result<Vec<StateVar>, CheckError>)
        ensures
            match (r, (judge(self.model(), k as nat).module)(x.model(), binds(old(scope)@))) {
                (Ok(v), Ok(m)) => var_views(v@) == m && binds(final(scope)@) == binds(old(scope)@),
                (Err(e), Err(f)) => e.model() == f,
                _ => false,
            },
        decreases k, 0nat,
    {
        proof {
            judge_rules(self.model(), k as nat);
        }
        if k == 0 {
            return Err(CheckError::Deep);
        }
        self.module_kind(x, scope, k - 1)
    }

    fn definition(&self, x: &Definition, vs: &Vec<StateVar>, next: bool, scope: &mut Vec<Bind>, k: usize) -> (r: Result<(), CheckError>)
        ensures
            match (r, (judge(self.model(), k as nat).def)(x.model(), var_views(vs@), next, binds(old(scope)@))) {
                (Ok(v), Ok(m)) => true && binds(final(scope)@) == binds(old(scope)@),
                (Err(e), Err(f)) => e.model() == f,
                _ => false,
            },
        decreases k, 0nat,
    {
        proof {
            judge_rules(self.model(), k as nat);
        }
        if k == 0 {
            return Err(CheckError::Deep);
        }
        self.def_body(x, vs, next, scope, k - 1)
    }

    fn command(&self, x: &SomeCommand, vs: &Vec<StateVar>, next: bool, scope: &mut Vec<Bind>, k: usize) -> (r: Result<(), CheckError>)
        ensures
            match (r, (judge(self.model(), k as nat).cmd)(x.model(), var_views(vs@), next, binds(old(scope)@))) {
                (Ok(v), Ok(m)) => true && binds(final(scope)@) == binds(old(scope)@),
                (Err(e), Err(f)) => e.model() == f,
                _ => false,
            },
        decreases k, 0nat,
    {
        proof {
            judge_rules(self.model(), k as nat);
        }
        if k == 0 {
            return Err(CheckError::Deep);
        }
        self.cmd_body(x, vs, next, scope, k - 1)
    }
}

impl<'e> Checker<'e> {
    /// The type that a type expression stands for.
    pub fn resolve_type(&self, t: &Type, scope: &mut Vec<Bind>) -> (r: Result<SemType, CheckError>)
        ensures
            match (r, (judge(self.model(), usize::MAX as nat).ty)(t.model(), binds(old(scope)@))) {
                (Ok(v), Ok(m)) => v.model() == m && binds(final(scope)@) == binds(old(scope)@),
                (Err(e), Err(f)) => e.model() == f,
                _ => false,
            },
    {
        self.ty(t, scope, usize::MAX)
    }

    /// The type of an expression.
    pub fn infer_expr(&self, e: &Expr, scope: &mut Vec<Bind>) -> (r: Result<SemType, CheckError>)
        ensures
            match (r, (judge(self.model(), usize::MAX as nat).expr)(e.model(), binds(old(scope)@))) {
                (Ok(v), Ok(m)) => v.model() == m && binds(final(scope)@) == binds(old(scope)@),
                (Err(e), Err(f)) => e.model() == f,
                _ => false,
            },
    {
        self.expr(e, scope, usize::MAX)
    }

    /// The state variables of a module.
    pub fn check_module(&self, m: &Module, scope: &mut Vec<Bind>) -> (r: Result<Vec<StateVar>, CheckError>)
        ensures
            match (r, (judge(self.model(), usize::MAX as nat).module)(m.model(), binds(old(scope)@))) {
                (Ok(v), Ok(m)) => var_views(v@) == m && binds(final(scope)@) == binds(old(scope)@),
                (Err(e), Err(f)) => e.model() == f,
                _ => false,
            },
    {
        self.module(m, scope, usize::MAX)
    }

    /// What a name stands for, and the instance that declares it.
    pub fn lookup_entry_pub(&self, n: &Name, scope: &mut Vec<Bind>) -> (r: Result<(usize, &'e Entry), CheckError>)
        ensures
            match (r, (judge(self.model(), usize::MAX as nat).name)(n.model(), binds(old(scope)@))) {
                (Ok(v), Ok(m)) => v.0 == m.0 && v.1.model() == m.1 && binds(final(scope)@) == binds(old(scope)@),
                (Err(e), Err(f)) => e.model() == f,
                _ => false,
            },
    {
        self.resolve(n, scope, usize::MAX)
    }
}

} // verus!
