//! Copies of syntax.

use crate::ast::{
    access_models, actual_models, base_decl_models, constructor_models, def_or_command_models, definition_forall,
    definition_models, definition_simple, expr_models, field_decl_models, ident_expr_pairs, ident_models,
    let_decl_models, lhs_lhs_pairs, new_var_decl_models, rhs_expr, rhs_selection, some_command_models, type_models,
    var_decl_models, Access, Actual, AssertionExpr, BaseDecl, BaseModule, Constructor, ContextName, DefOrCommand,
    Definition, Expr, ExprKind, FieldDecl, GuardedCommand, GuardedCommandV, Ident, LetDecl, Lhs, Module, ModuleKind,
    Name, NewVarDecl, Rhs, SetPred, SimpleDefinition, SomeCommand, Type, TypeDef, TypeKind, VarDecl,
};
use crate::parser::{opt_expr, opt_ident};
use crate::span::Span;
use vstd::prelude::*;

verus! {

impl Ident {
    /// A copy.
    pub fn dup(&self) -> (r: Ident)
        ensures
            r.model() == self.model(),
        decreases self, 1nat,
    {
        Ident {
            name: self.name.clone(),
            span: self.span,
        }
    }
}

impl ContextName {
    /// A copy.
    pub fn dup(&self) -> (r: ContextName)
        ensures
            r.model() == self.model(),
        decreases self, 1nat,
    {
        ContextName {
            name: self.name.dup(),
            actuals: dup_actuals(&self.actuals),
            span: self.span,
        }
    }
}

impl Actual {
    /// A copy.
    pub fn dup(&self) -> (r: Actual)
        ensures
            r.model() == self.model(),
        decreases self, 1nat,
    {
        match self {
            Actual::Expr(a) => Actual::Expr(a.dup()),
            Actual::Type(a) => Actual::Type(a.dup()),
        }
    }
}

impl Name {
    /// A copy.
    pub fn dup(&self) -> (r: Name)
        ensures
            r.model() == self.model(),
        decreases self, 1nat,
    {
        Name {
            ctx: dup_opt_context_name(&self.ctx),
            id: self.id.dup(),
            span: self.span,
        }
    }
}

impl AssertionExpr {
    /// A copy.
    pub fn dup(&self) -> (r: AssertionExpr)
        ensures
            r.model() == self.model(),
        decreases self, 1nat,
    {
        match self {
            AssertionExpr::Models { module, formula } => AssertionExpr::Models { module: module.dup(), formula: formula.dup() },
            AssertionExpr::Implements { concrete, abstract_ } => AssertionExpr::Implements { concrete: concrete.dup(), abstract_: abstract_.dup() },
        }
    }
}

impl TypeDef {
    /// A copy.
    pub fn dup(&self) -> (r: TypeDef)
        ensures
            r.model() == self.model(),
        decreases self, 1nat,
    {
        match self {
            TypeDef::Type(a) => TypeDef::Type(a.dup()),
            TypeDef::Scalar(a) => TypeDef::Scalar(dup_idents(a)),
            TypeDef::Datatype(a) => TypeDef::Datatype(dup_constructors(a)),
            TypeDef::Scalarset(a) => TypeDef::Scalarset(a.dup()),
            TypeDef::Ringset(a) => TypeDef::Ringset(a.dup()),
        }
    }
}

impl Constructor {
    /// A copy.
    pub fn dup(&self) -> (r: Constructor)
        ensures
            r.model() == self.model(),
        decreases self, 1nat,
    {
        Constructor {
            name: self.name.dup(),
            accessors: dup_var_decls(&self.accessors),
        }
    }
}

impl Type {
    /// A copy.
    pub fn dup(&self) -> (r: Type)
        ensures
            r.model() == self.model(),
        decreases self, 1nat,
    {
        Type {
            kind: self.kind.dup(),
            span: self.span,
        }
    }
}

impl TypeKind {
    /// A copy.
    pub fn dup(&self) -> (r: TypeKind)
        ensures
            r.model() == self.model(),
        decreases self, 1nat,
    {
        match self {
            TypeKind::Name(a) => TypeKind::Name(a.dup()),
            TypeKind::Subrange(a, b) => TypeKind::Subrange(Box::new(a.dup()), Box::new(b.dup())),
            TypeKind::Subtype(a) => TypeKind::Subtype(Box::new(a.dup())),
            TypeKind::Array(a, b) => TypeKind::Array(Box::new(a.dup()), Box::new(b.dup())),
            TypeKind::Tuple(a) => TypeKind::Tuple(dup_types(a)),
            TypeKind::Function(a, b) => TypeKind::Function(Box::new(a.dup()), Box::new(b.dup())),
            TypeKind::Record(a) => TypeKind::Record(dup_field_decls(a)),
            TypeKind::State(a) => TypeKind::State(Box::new(a.dup())),
        }
    }
}

impl FieldDecl {
    /// A copy.
    pub fn dup(&self) -> (r: FieldDecl)
        ensures
            r.model() == self.model(),
        decreases self, 1nat,
    {
        FieldDecl {
            name: self.name.dup(),
            ty: self.ty.dup(),
        }
    }
}

impl SetPred {
    /// A copy.
    pub fn dup(&self) -> (r: SetPred)
        ensures
            r.model() == self.model(),
        decreases self, 1nat,
    {
        SetPred {
            var: self.var.dup(),
            ty: self.ty.dup(),
            pred: self.pred.dup(),
            span: self.span,
        }
    }
}

impl VarDecl {
    /// A copy.
    pub fn dup(&self) -> (r: VarDecl)
        ensures
            r.model() == self.model(),
        decreases self, 1nat,
    {
        VarDecl {
            names: dup_idents(&self.names),
            ty: self.ty.dup(),
            span: self.span,
        }
    }
}

impl Expr {
    /// A copy.
    pub fn dup(&self) -> (r: Expr)
        ensures
            r.model() == self.model(),
        decreases self, 1nat,
    {
        Expr {
            kind: self.kind.dup(),
            span: self.span,
            parens: self.parens,
        }
    }
}

impl ExprKind {
    /// A copy.
    pub fn dup(&self) -> (r: ExprKind)
        ensures
            r.model() == self.model(),
        decreases self, 1nat,
    {
        match self {
            ExprKind::Name(a) => ExprKind::Name(a.dup()),
            ExprKind::Next(a) => ExprKind::Next(a.dup()),
            ExprKind::Numeral(a) => ExprKind::Numeral(a.clone()),
            ExprKind::Float { numer, denom } => ExprKind::Float { numer: numer.clone(), denom: denom.clone() },
            ExprKind::Str(a) => ExprKind::Str(a.clone()),
            ExprKind::Binary(a, b, c) => ExprKind::Binary(*a, Box::new(b.dup()), Box::new(c.dup())),
            ExprKind::Unary(a, b) => ExprKind::Unary(*a, Box::new(b.dup())),
            ExprKind::App(a, b) => ExprKind::App(Box::new(a.dup()), dup_exprs(b)),
            ExprKind::ArraySelect(a, b) => ExprKind::ArraySelect(Box::new(a.dup()), Box::new(b.dup())),
            ExprKind::RecordSelect(a, b) => ExprKind::RecordSelect(Box::new(a.dup()), b.dup()),
            ExprKind::TupleSelect(a, b) => ExprKind::TupleSelect(Box::new(a.dup()), *b),
            ExprKind::Update { target, accesses, value } => ExprKind::Update { target: Box::new(target.dup()), accesses: dup_accesss(accesses), value: Box::new(value.dup()) },
            ExprKind::Lambda(a, b) => ExprKind::Lambda(dup_var_decls(a), Box::new(b.dup())),
            ExprKind::Quantified(a, b, c) => ExprKind::Quantified(*a, dup_var_decls(b), Box::new(c.dup())),
            ExprKind::Let(a, b) => ExprKind::Let(dup_let_decls(a), Box::new(b.dup())),
            ExprKind::SetPred(a) => ExprKind::SetPred(Box::new(a.dup())),
            ExprKind::SetList(a) => ExprKind::SetList(dup_exprs(a)),
            ExprKind::ArrayLit(a, b) => ExprKind::ArrayLit(Box::new(a.dup()), Box::new(b.dup())),
            ExprKind::RecordLit(a) => ExprKind::RecordLit(dup_ident_expr_pairs(a)),
            ExprKind::TupleLit(a) => ExprKind::TupleLit(dup_exprs(a)),
            ExprKind::Conditional { cond, then_, els, is_elsif } => ExprKind::Conditional { cond: Box::new(cond.dup()), then_: Box::new(then_.dup()), els: Box::new(els.dup()), is_elsif: *is_elsif },
            ExprKind::ModInit(a) => ExprKind::ModInit(Box::new(a.dup())),
            ExprKind::ModTrans(a) => ExprKind::ModTrans(Box::new(a.dup())),
            ExprKind::Unbounded => ExprKind::Unbounded,
        }
    }
}

impl Access {
    /// A copy.
    pub fn dup(&self) -> (r: Access)
        ensures
            r.model() == self.model(),
        decreases self, 1nat,
    {
        match self {
            Access::Array(a) => Access::Array(a.dup()),
            Access::Record(a) => Access::Record(a.dup()),
            Access::Tuple(a) => Access::Tuple(*a),
            Access::Args(a) => Access::Args(dup_exprs(a)),
        }
    }
}

impl LetDecl {
    /// A copy.
    pub fn dup(&self) -> (r: LetDecl)
        ensures
            r.model() == self.model(),
        decreases self, 1nat,
    {
        LetDecl {
            name: self.name.dup(),
            ty: self.ty.dup(),
            value: self.value.dup(),
        }
    }
}

impl Module {
    /// A copy.
    pub fn dup(&self) -> (r: Module)
        ensures
            r.model() == self.model(),
        decreases self, 1nat,
    {
        Module {
            kind: self.kind.dup(),
            span: self.span,
            parens: self.parens,
        }
    }
}

impl ModuleKind {
    /// A copy.
    pub fn dup(&self) -> (r: ModuleKind)
        ensures
            r.model() == self.model(),
        decreases self, 1nat,
    {
        match self {
            ModuleKind::Instance(a, b) => ModuleKind::Instance(a.dup(), dup_exprs(b)),
            ModuleKind::Sync(a, b) => ModuleKind::Sync(Box::new(a.dup()), Box::new(b.dup())),
            ModuleKind::Async(a, b) => ModuleKind::Async(Box::new(a.dup()), Box::new(b.dup())),
            ModuleKind::MultiSync(a, b) => ModuleKind::MultiSync(Box::new(a.dup()), Box::new(b.dup())),
            ModuleKind::MultiAsync(a, b) => ModuleKind::MultiAsync(Box::new(a.dup()), Box::new(b.dup())),
            ModuleKind::Hide(a, b) => ModuleKind::Hide(dup_idents(a), Box::new(b.dup())),
            ModuleKind::NewOutput(a, b) => ModuleKind::NewOutput(dup_idents(a), Box::new(b.dup())),
            ModuleKind::Rename(a, b) => ModuleKind::Rename(dup_lhs_lhs_pairs(a), Box::new(b.dup())),
            ModuleKind::With(a, b) => ModuleKind::With(dup_new_var_decls(a), Box::new(b.dup())),
            ModuleKind::Observe(a, b) => ModuleKind::Observe(Box::new(a.dup()), Box::new(b.dup())),
            ModuleKind::Base(a) => ModuleKind::Base(a.dup()),
        }
    }
}

impl NewVarDecl {
    /// A copy.
    pub fn dup(&self) -> (r: NewVarDecl)
        ensures
            r.model() == self.model(),
        decreases self, 1nat,
    {
        NewVarDecl {
            class: self.class,
            decls: dup_var_decls(&self.decls),
        }
    }
}

impl BaseModule {
    /// A copy.
    pub fn dup(&self) -> (r: BaseModule)
        ensures
            r.model() == self.model(),
        decreases self, 1nat,
    {
        BaseModule {
            decls: dup_base_decls(&self.decls),
            span: self.span,
        }
    }
}

impl BaseDecl {
    /// A copy.
    pub fn dup(&self) -> (r: BaseDecl)
        ensures
            r.model() == self.model(),
        decreases self, 1nat,
    {
        match self {
            BaseDecl::Vars(a, b) => BaseDecl::Vars(*a, dup_var_decls(b)),
            BaseDecl::Definition(a) => BaseDecl::Definition(dup_definitions(a)),
            BaseDecl::Initialization(a) => BaseDecl::Initialization(dup_def_or_commands(a)),
            BaseDecl::Transition(a) => BaseDecl::Transition(dup_def_or_commands(a)),
        }
    }
}

impl Definition {
    /// A copy.
    pub fn dup(&self) -> (r: Definition)
        ensures
            r.model() == self.model(),
        decreases self, 1nat,
    {
        match self {
            Definition::Simple(a) => {
                let b = a.dup();
                proof {
                    definition_simple(*a);
                    definition_simple(b);
                    assert(*self == Definition::Simple(*a));
                }
                Definition::Simple(b)
            },
            Definition::Forall(a, b) => {
                let c = dup_var_decls(a);
                let d = dup_definitions(b);
                proof {
                    definition_forall(*a, *b);
                    definition_forall(c, d);
                    assert(*self == Definition::Forall(*a, *b));
                }
                Definition::Forall(c, d)
            },
        }
    }
}

impl SimpleDefinition {
    /// A copy.
    pub fn dup(&self) -> (r: SimpleDefinition)
        ensures
            r.model() == self.model(),
        decreases self, 1nat,
    {
        SimpleDefinition {
            lhs: self.lhs.dup(),
            rhs: self.rhs.dup(),
            span: self.span,
        }
    }
}

impl Lhs {
    /// A copy.
    pub fn dup(&self) -> (r: Lhs)
        ensures
            r.model() == self.model(),
        decreases self, 1nat,
    {
        Lhs {
            base: self.base.dup(),
            next: self.next,
            accesses: dup_accesss(&self.accesses),
            span: self.span,
        }
    }
}

impl Rhs {
    /// A copy.
    pub fn dup(&self) -> (r: Rhs)
        ensures
            r.model() == self.model(),
        decreases self, 1nat,
    {
        match self {
            Rhs::Expr(a) => {
                let b = a.dup();
                proof {
                    rhs_expr(*a);
                    rhs_expr(b);
                    assert(*self == Rhs::Expr(*a));
                }
                Rhs::Expr(b)
            },
            Rhs::Selection(a) => {
                let b = a.dup();
                proof {
                    rhs_selection(*a);
                    rhs_selection(b);
                    assert(*self == Rhs::Selection(*a));
                }
                Rhs::Selection(b)
            },
        }
    }
}

impl DefOrCommand {
    /// A copy.
    pub fn dup(&self) -> (r: DefOrCommand)
        ensures
            r.model() == self.model(),
        decreases self, 1nat,
    {
        match self {
            DefOrCommand::Def(a) => DefOrCommand::Def(a.dup()),
            DefOrCommand::Commands(a, b) => DefOrCommand::Commands(dup_some_commands(a), *b),
        }
    }
}

impl SomeCommand {
    /// A copy.
    pub fn dup(&self) -> (r: SomeCommand)
        ensures
            r.model() == self.model(),
        decreases self, 1nat,
    {
        match self {
            SomeCommand::Guarded(a) => SomeCommand::Guarded(a.dup()),
            SomeCommand::Multi(a, b, c) => SomeCommand::Multi(dup_var_decls(a), Box::new(b.dup()), *c),
        }
    }
}

proof fn command_value(label: Option<Ident>, guard: Option<Expr>, assignments: Vec<Definition>, span: Span)
    ensures
        (GuardedCommand { label, guard, assignments, span }).model() == (GuardedCommandV {
            label: opt_ident(label),
            guard: opt_expr(guard),
            assignments: definition_models(assignments@),
            span,
        }),
{
}

impl GuardedCommand {
    /// A copy.
    pub fn dup(&self) -> (r: GuardedCommand)
        ensures
            r.model() == self.model(),
        decreases self, 1nat,
    {
        let label = dup_opt_ident(&self.label);
        let guard = dup_opt_expr(&self.guard);
        let assignments = dup_definitions(&self.assignments);
        proof {
            command_value(self.label, self.guard, self.assignments, self.span);
            command_value(label, guard, assignments, self.span);
            assert(*self == GuardedCommand {
                label: self.label,
                guard: self.guard,
                assignments: self.assignments,
                span: self.span,
            });
        }
        GuardedCommand { label, guard, assignments, span: self.span }
    }
}

/// A copy, where there is something to copy.
pub fn dup_opt_context_name(x: &Option<ContextName>) -> (r: Option<ContextName>)
    ensures
        match (r, *x) {
            (Some(a), Some(b)) => a.model() == b.model(),
            (None, None) => true,
            _ => false,
        },
    decreases x, 0nat,
{
    match x {
        Some(v) => Some(v.dup()),
        None => None,
    }
}

/// A copy, where there is something to copy.
pub fn dup_opt_expr(x: &Option<Expr>) -> (r: Option<Expr>)
    ensures
        opt_expr(r) == opt_expr(*x),
    decreases x, 0nat,
{
    match x {
        Some(v) => Some(v.dup()),
        None => None,
    }
}

/// A copy, where there is something to copy.
pub fn dup_opt_ident(x: &Option<Ident>) -> (r: Option<Ident>)
    ensures
        opt_ident(r) == opt_ident(*x),
    decreases x, 0nat,
{
    match x {
        Some(v) => Some(v.dup()),
        None => None,
    }
}

/// A copy of a list.
pub fn dup_accesss(v: &Vec<Access>) -> (r: Vec<Access>)
    ensures
        access_models(r@) == access_models(v@),
    decreases v, 0nat,
{
    let mut r: Vec<Access> = Vec::new();
    let mut i: usize = 0;
    while i < v.len()
        invariant
            i <= v@.len(),
            r@.len() == i,
            forall|j: int| 0 <= j < i ==> (#[trigger] r@[j]).model() == v@[j].model(),
        decreases v.len() - i,
    {
        r.push(v[i].dup());
        i += 1;
    }
    assert(access_models(r@) =~= access_models(v@));
    r
}

/// A copy of a list.
pub fn dup_actuals(v: &Vec<Actual>) -> (r: Vec<Actual>)
    ensures
        actual_models(r@) == actual_models(v@),
    decreases v, 0nat,
{
    let mut r: Vec<Actual> = Vec::new();
    let mut i: usize = 0;
    while i < v.len()
        invariant
            i <= v@.len(),
            r@.len() == i,
            forall|j: int| 0 <= j < i ==> (#[trigger] r@[j]).model() == v@[j].model(),
        decreases v.len() - i,
    {
        r.push(v[i].dup());
        i += 1;
    }
    assert(actual_models(r@) =~= actual_models(v@));
    r
}

/// A copy of a list.
pub fn dup_base_decls(v: &Vec<BaseDecl>) -> (r: Vec<BaseDecl>)
    ensures
        base_decl_models(r@) == base_decl_models(v@),
    decreases v, 0nat,
{
    let mut r: Vec<BaseDecl> = Vec::new();
    let mut i: usize = 0;
    while i < v.len()
        invariant
            i <= v@.len(),
            r@.len() == i,
            forall|j: int| 0 <= j < i ==> (#[trigger] r@[j]).model() == v@[j].model(),
        decreases v.len() - i,
    {
        r.push(v[i].dup());
        i += 1;
    }
    assert(base_decl_models(r@) =~= base_decl_models(v@));
    r
}

/// A copy of a list.
pub fn dup_constructors(v: &Vec<Constructor>) -> (r: Vec<Constructor>)
    ensures
        constructor_models(r@) == constructor_models(v@),
    decreases v, 0nat,
{
    let mut r: Vec<Constructor> = Vec::new();
    let mut i: usize = 0;
    while i < v.len()
        invariant
            i <= v@.len(),
            r@.len() == i,
            forall|j: int| 0 <= j < i ==> (#[trigger] r@[j]).model() == v@[j].model(),
        decreases v.len() - i,
    {
        r.push(v[i].dup());
        i += 1;
    }
    assert(constructor_models(r@) =~= constructor_models(v@));
    r
}

/// A copy of a list.
pub fn dup_def_or_commands(v: &Vec<DefOrCommand>) -> (r: Vec<DefOrCommand>)
    ensures
        def_or_command_models(r@) == def_or_command_models(v@),
    decreases v, 0nat,
{
    let mut r: Vec<DefOrCommand> = Vec::new();
    let mut i: usize = 0;
    while i < v.len()
        invariant
            i <= v@.len(),
            r@.len() == i,
            forall|j: int| 0 <= j < i ==> (#[trigger] r@[j]).model() == v@[j].model(),
        decreases v.len() - i,
    {
        r.push(v[i].dup());
        i += 1;
    }
    assert(def_or_command_models(r@) =~= def_or_command_models(v@));
    r
}

/// A copy of a list.
pub fn dup_definitions(v: &Vec<Definition>) -> (r: Vec<Definition>)
    ensures
        definition_models(r@) == definition_models(v@),
    decreases v, 0nat,
{
    let mut r: Vec<Definition> = Vec::new();
    let mut i: usize = 0;
    while i < v.len()
        invariant
            i <= v@.len(),
            r@.len() == i,
            forall|j: int| 0 <= j < i ==> (#[trigger] r@[j]).model() == v@[j].model(),
        decreases v.len() - i,
    {
        r.push(v[i].dup());
        i += 1;
    }
    assert(definition_models(r@) =~= definition_models(v@));
    r
}

/// A copy of a list.
pub fn dup_exprs(v: &Vec<Expr>) -> (r: Vec<Expr>)
    ensures
        expr_models(r@) == expr_models(v@),
    decreases v, 0nat,
{
    let mut r: Vec<Expr> = Vec::new();
    let mut i: usize = 0;
    while i < v.len()
        invariant
            i <= v@.len(),
            r@.len() == i,
            forall|j: int| 0 <= j < i ==> (#[trigger] r@[j]).model() == v@[j].model(),
        decreases v.len() - i,
    {
        r.push(v[i].dup());
        i += 1;
    }
    assert(expr_models(r@) =~= expr_models(v@));
    r
}

/// A copy of a list.
pub fn dup_field_decls(v: &Vec<FieldDecl>) -> (r: Vec<FieldDecl>)
    ensures
        field_decl_models(r@) == field_decl_models(v@),
    decreases v, 0nat,
{
    let mut r: Vec<FieldDecl> = Vec::new();
    let mut i: usize = 0;
    while i < v.len()
        invariant
            i <= v@.len(),
            r@.len() == i,
            forall|j: int| 0 <= j < i ==> (#[trigger] r@[j]).model() == v@[j].model(),
        decreases v.len() - i,
    {
        r.push(v[i].dup());
        i += 1;
    }
    assert(field_decl_models(r@) =~= field_decl_models(v@));
    r
}

/// A copy of a list.
pub fn dup_ident_expr_pairs(v: &Vec<(Ident, Expr)>) -> (r: Vec<(Ident, Expr)>)
    ensures
        ident_expr_pairs(r@) == ident_expr_pairs(v@),
    decreases v, 0nat,
{
    let mut r: Vec<(Ident, Expr)> = Vec::new();
    let mut i: usize = 0;
    while i < v.len()
        invariant
            i <= v@.len(),
            r@.len() == i,
            forall|j: int| 0 <= j < i ==> (#[trigger] r@[j]).0.model() == v@[j].0.model() && r@[j].1.model() == v@[j].1.model(),
        decreases v.len() - i,
    {
        r.push((v[i].0.dup(), v[i].1.dup()));
        i += 1;
    }
    assert(ident_expr_pairs(r@) =~= ident_expr_pairs(v@));
    r
}

/// A copy of a list.
pub fn dup_idents(v: &Vec<Ident>) -> (r: Vec<Ident>)
    ensures
        ident_models(r@) == ident_models(v@),
    decreases v, 0nat,
{
    let mut r: Vec<Ident> = Vec::new();
    let mut i: usize = 0;
    while i < v.len()
        invariant
            i <= v@.len(),
            r@.len() == i,
            forall|j: int| 0 <= j < i ==> (#[trigger] r@[j]).model() == v@[j].model(),
        decreases v.len() - i,
    {
        r.push(v[i].dup());
        i += 1;
    }
    assert(ident_models(r@) =~= ident_models(v@));
    r
}

/// A copy of a list.
pub fn dup_let_decls(v: &Vec<LetDecl>) -> (r: Vec<LetDecl>)
    ensures
        let_decl_models(r@) == let_decl_models(v@),
    decreases v, 0nat,
{
    let mut r: Vec<LetDecl> = Vec::new();
    let mut i: usize = 0;
    while i < v.len()
        invariant
            i <= v@.len(),
            r@.len() == i,
            forall|j: int| 0 <= j < i ==> (#[trigger] r@[j]).model() == v@[j].model(),
        decreases v.len() - i,
    {
        r.push(v[i].dup());
        i += 1;
    }
    assert(let_decl_models(r@) =~= let_decl_models(v@));
    r
}

/// A copy of a list.
pub fn dup_lhs_lhs_pairs(v: &Vec<(Lhs, Lhs)>) -> (r: Vec<(Lhs, Lhs)>)
    ensures
        lhs_lhs_pairs(r@) == lhs_lhs_pairs(v@),
    decreases v, 0nat,
{
    let mut r: Vec<(Lhs, Lhs)> = Vec::new();
    let mut i: usize = 0;
    while i < v.len()
        invariant
            i <= v@.len(),
            r@.len() == i,
            forall|j: int| 0 <= j < i ==> (#[trigger] r@[j]).0.model() == v@[j].0.model() && r@[j].1.model() == v@[j].1.model(),
        decreases v.len() - i,
    {
        r.push((v[i].0.dup(), v[i].1.dup()));
        i += 1;
    }
    assert(lhs_lhs_pairs(r@) =~= lhs_lhs_pairs(v@));
    r
}

/// A copy of a list.
pub fn dup_new_var_decls(v: &Vec<NewVarDecl>) -> (r: Vec<NewVarDecl>)
    ensures
        new_var_decl_models(r@) == new_var_decl_models(v@),
    decreases v, 0nat,
{
    let mut r: Vec<NewVarDecl> = Vec::new();
    let mut i: usize = 0;
    while i < v.len()
        invariant
            i <= v@.len(),
            r@.len() == i,
            forall|j: int| 0 <= j < i ==> (#[trigger] r@[j]).model() == v@[j].model(),
        decreases v.len() - i,
    {
        r.push(v[i].dup());
        i += 1;
    }
    assert(new_var_decl_models(r@) =~= new_var_decl_models(v@));
    r
}

/// A copy of a list.
pub fn dup_some_commands(v: &Vec<SomeCommand>) -> (r: Vec<SomeCommand>)
    ensures
        some_command_models(r@) == some_command_models(v@),
    decreases v, 0nat,
{
    let mut r: Vec<SomeCommand> = Vec::new();
    let mut i: usize = 0;
    while i < v.len()
        invariant
            i <= v@.len(),
            r@.len() == i,
            forall|j: int| 0 <= j < i ==> (#[trigger] r@[j]).model() == v@[j].model(),
        decreases v.len() - i,
    {
        r.push(v[i].dup());
        i += 1;
    }
    assert(some_command_models(r@) =~= some_command_models(v@));
    r
}

/// A copy of a list.
pub fn dup_types(v: &Vec<Type>) -> (r: Vec<Type>)
    ensures
        type_models(r@) == type_models(v@),
    decreases v, 0nat,
{
    let mut r: Vec<Type> = Vec::new();
    let mut i: usize = 0;
    while i < v.len()
        invariant
            i <= v@.len(),
            r@.len() == i,
            forall|j: int| 0 <= j < i ==> (#[trigger] r@[j]).model() == v@[j].model(),
        decreases v.len() - i,
    {
        r.push(v[i].dup());
        i += 1;
    }
    assert(type_models(r@) =~= type_models(v@));
    r
}

/// A copy of a list.
pub fn dup_var_decls(v: &Vec<VarDecl>) -> (r: Vec<VarDecl>)
    ensures
        var_decl_models(r@) == var_decl_models(v@),
    decreases v, 0nat,
{
    let mut r: Vec<VarDecl> = Vec::new();
    let mut i: usize = 0;
    while i < v.len()
        invariant
            i <= v@.len(),
            r@.len() == i,
            forall|j: int| 0 <= j < i ==> (#[trigger] r@[j]).model() == v@[j].model(),
        decreases v.len() - i,
    {
        r.push(v[i].dup());
        i += 1;
    }
    assert(var_decl_models(r@) =~= var_decl_models(v@));
    r
}

} // verus!
