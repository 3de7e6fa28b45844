//! Abstract syntax.

use crate::span::Span;
use vstd::prelude::*;

verus! {

/// The class of a state variable.
#[derive(Clone, Copy, Debug, PartialEq, Eq, Structural)]
pub enum VarClass {
    Input,
    Output,
    Global,
    Local,
}

/// The form of an assertion.
#[derive(Clone, Copy, Debug, PartialEq, Eq, Structural)]
pub enum AssertionForm {
    Obligation,
    Claim,
    Lemma,
    Theorem,
}

/// A binary operator.
#[derive(Clone, Copy, Debug, PartialEq, Eq, Hash, Structural)]
pub enum BinOp {
    Iff,
    Implies,
    Or,
    Xor,
    And,
    Eq,
    Neq,
    Lt,
    Le,
    Gt,
    Ge,
    Plus,
    Minus,
    Mult,
    Div,
    IDiv,
    Mod,
}

/// The name of an operator.
pub open spec fn op_name(op: BinOp) -> Seq<char> {
    match op {
        BinOp::Iff => "<=>"@,
        BinOp::Implies => "=>"@,
        BinOp::Or => "OR"@,
        BinOp::Xor => "XOR"@,
        BinOp::And => "AND"@,
        BinOp::Eq => "="@,
        BinOp::Neq => "/="@,
        BinOp::Lt => "<"@,
        BinOp::Le => "<="@,
        BinOp::Gt => ">"@,
        BinOp::Ge => ">="@,
        BinOp::Plus => "+"@,
        BinOp::Minus => "-"@,
        BinOp::Mult => "*"@,
        BinOp::Div => "/"@,
        BinOp::IDiv => "DIV"@,
        BinOp::Mod => "MOD"@,
    }
}

impl BinOp {
    /// The name of the operator.
    pub fn name(self) -> (r: &'static str)
        ensures
            r@ == op_name(self),
    {
        match self {
            BinOp::Iff => "<=>",
            BinOp::Implies => "=>",
            BinOp::Or => "OR",
            BinOp::Xor => "XOR",
            BinOp::And => "AND",
            BinOp::Eq => "=",
            BinOp::Neq => "/=",
            BinOp::Lt => "<",
            BinOp::Le => "<=",
            BinOp::Gt => ">",
            BinOp::Ge => ">=",
            BinOp::Plus => "+",
            BinOp::Minus => "-",
            BinOp::Mult => "*",
            BinOp::Div => "/",
            BinOp::IDiv => "DIV",
            BinOp::Mod => "MOD",
        }
    }
}

/// A unary operator.
#[derive(Clone, Copy, Debug, PartialEq, Eq, Hash, Structural)]
pub enum UnOp {
    Not,
    Minus,
}

/// A quantifier.
#[derive(Clone, Copy, Debug, PartialEq, Eq, Structural)]
pub enum Quantifier {
    Forall,
    Exists,
}

/// A name where it is written.
#[derive(Debug)]
pub struct Ident {
    pub name: String,
    pub span: Span,
}

/// A context, with actual parameters where it has any.
#[derive(Debug)]
pub struct ContextName {
    pub name: Ident,
    pub actuals: Vec<Actual>,
    pub span: Span,
}

/// An actual parameter of a context. A plain name is an expression here.
#[derive(Debug)]
pub enum Actual {
    /// A value.
    Expr(Expr),
    /// A composite type.
    Type(Type),
}

/// A name, possibly of another context.
#[derive(Debug)]
pub struct Name {
    pub ctx: Option<ContextName>,
    pub id: Ident,
    pub span: Span,
}

/// A context: a file.
#[derive(Debug)]
pub struct SalContext {
    pub name: Ident,
    pub params: Vec<CtxParam>,
    pub decls: Vec<Decl>,
    pub span: Span,
}

/// Formal parameters of a context.
#[derive(Debug)]
pub enum CtxParam {
    /// `T1, T2 : TYPE`
    Types(Vec<Ident>),
    /// `x, y : T`
    Vars(Vec<Ident>, Type),
}

/// A declaration.
#[allow(inconsistent_fields)]
#[derive(Debug)]
pub enum Decl {
    /// `t : TYPE [= def]`
    Type { name: Ident, def: Option<TypeDef> },
    /// `c [(args)] : T [= value]`. With arguments the constant is a function.
    Constant { name: Ident, args: Vec<VarDecl>, ty: Type, value: Option<Expr> },
    /// `c : CONTEXT = ctx{actuals}`
    Context { name: Ident, ctx: ContextName },
    /// `m [params] : MODULE = body`
    Module { name: Ident, params: Vec<VarDecl>, body: Module },
    /// `a : THEOREM body`
    Assertion { name: Ident, form: AssertionForm, body: AssertionExpr },
    /// `IMPORTING ctx [WITH a TO b, ...]`
    Import { ctx: ContextName, renames: Vec<(Ident, Ident)> },
}

/// What an assertion claims.
#[derive(Debug)]
pub enum AssertionExpr {
    /// `module |- formula`
    Models { module: Module, formula: Expr },
    /// `concrete IMPLEMENTS abstract_`
    Implements { concrete: Module, abstract_: Module },
}

/// The definition of a type.
#[derive(Debug)]
pub enum TypeDef {
    /// Another type.
    Type(Type),
    /// `{a, b, c}`
    Scalar(Vec<Ident>),
    /// `DATATYPE cons(car: T, cdr: t), nil END`
    Datatype(Vec<Constructor>),
    /// `SCALARSET(n)`
    Scalarset(Expr),
    /// `RINGSET(n)`
    Ringset(Expr),
}

/// A constructor of a datatype.
#[derive(Debug)]
pub struct Constructor {
    pub name: Ident,
    pub accessors: Vec<VarDecl>,
}

/// A type where it is written.
#[derive(Debug)]
pub struct Type {
    pub kind: TypeKind,
    pub span: Span,
}

/// A type.
#[derive(Debug)]
pub enum TypeKind {
    /// A named type.
    Name(Name),
    /// `[lo .. hi]`
    Subrange(Box<Expr>, Box<Expr>),
    /// `{x : T | p}`
    Subtype(Box<SetPred>),
    /// `ARRAY index OF element`
    Array(Box<Type>, Box<Type>),
    /// `[T1, T2, ...]`
    Tuple(Vec<Type>),
    /// `[domain -> range]`
    Function(Box<Type>, Box<Type>),
    /// `[# f1: T1, ... #]`
    Record(Vec<FieldDecl>),
    /// `STATE_TYPE(module)`
    State(Box<Module>),
}

/// A field of a record type.
#[derive(Debug)]
pub struct FieldDecl {
    pub name: Ident,
    pub ty: Type,
}

/// `{x : T | p}`, as a set and as a subtype.
#[derive(Debug)]
pub struct SetPred {
    pub var: Ident,
    pub ty: Type,
    pub pred: Expr,
    pub span: Span,
}

/// `x, y : T`
#[derive(Debug)]
pub struct VarDecl {
    pub names: Vec<Ident>,
    pub ty: Type,
    pub span: Span,
}

/// An expression where it is written.
#[derive(Debug)]
pub struct Expr {
    pub kind: ExprKind,
    pub span: Span,
    pub parens: u32,
}

/// An expression.
#[derive(Debug)]
pub enum ExprKind {
    /// A name.
    Name(Name),
    /// `x'`
    Next(Ident),
    /// A decimal numeral.
    Numeral(String),
    /// `n.d`, as a quotient of two numerals.
    Float { numer: String, denom: String },
    /// A string.
    Str(String),
    /// A binary operation.
    Binary(BinOp, Box<Expr>, Box<Expr>),
    /// A unary operation.
    Unary(UnOp, Box<Expr>),
    /// `f(a, b)`
    App(Box<Expr>, Vec<Expr>),
    /// `a[i]`
    ArraySelect(Box<Expr>, Box<Expr>),
    /// `r.field`
    RecordSelect(Box<Expr>, Ident),
    /// `t.2`
    TupleSelect(Box<Expr>, u32),
    /// `target WITH accesses := value`
    Update { target: Box<Expr>, accesses: Vec<Access>, value: Box<Expr> },
    /// `LAMBDA (decls) : e`
    Lambda(Vec<VarDecl>, Box<Expr>),
    /// `FORALL (decls) : e` or `EXISTS (decls) : e`
    Quantified(Quantifier, Vec<VarDecl>, Box<Expr>),
    /// `LET x : T = e, ... IN body`
    Let(Vec<LetDecl>, Box<Expr>),
    /// `{x : T | e}`
    SetPred(Box<SetPred>),
    /// `{e1, e2, ...}`
    SetList(Vec<Expr>),
    /// `[[i : T] e]`
    ArrayLit(Box<VarDecl>, Box<Expr>),
    /// `(# f := e, ... #)`
    RecordLit(Vec<(Ident, Expr)>),
    /// `(e1, e2, ...)`
    TupleLit(Vec<Expr>),
    /// `IF cond THEN then_ ELSE els ENDIF`; `is_elsif` where it is written with `ELSIF`.
    Conditional { cond: Box<Expr>, then_: Box<Expr>, els: Box<Expr>, is_elsif: bool },
    /// `INIT_PRED(module)`
    ModInit(Box<Module>),
    /// `TRANS_PRED(module)`
    ModTrans(Box<Module>),
    /// `_`
    Unbounded,
}

/// A step of an access path.
#[derive(Debug)]
pub enum Access {
    /// `[e]`
    Array(Expr),
    /// `.field`
    Record(Ident),
    /// `.2`
    Tuple(u32),
    /// `(args)`
    Args(Vec<Expr>),
}

/// `x : T = e`
#[derive(Debug)]
pub struct LetDecl {
    pub name: Ident,
    pub ty: Type,
    pub value: Expr,
}

/// A module where it is written.
#[derive(Debug)]
pub struct Module {
    pub kind: ModuleKind,
    pub span: Span,
    pub parens: u32,
}

/// A module.
#[derive(Debug)]
pub enum ModuleKind {
    /// `name[actuals]`
    Instance(Name, Vec<Expr>),
    /// `m1 || m2`
    Sync(Box<Module>, Box<Module>),
    /// `m1 [] m2`
    Async(Box<Module>, Box<Module>),
    /// `(|| (i : T) : m)`
    MultiSync(Box<VarDecl>, Box<Module>),
    /// `([] (i : T) : m)`
    MultiAsync(Box<VarDecl>, Box<Module>),
    /// `LOCAL x, y IN m`
    Hide(Vec<Ident>, Box<Module>),
    /// `OUTPUT x, y IN m`
    NewOutput(Vec<Ident>, Box<Module>),
    /// `RENAME a TO b, ... IN m`
    Rename(Vec<(Lhs, Lhs)>, Box<Module>),
    /// `WITH decls m`
    With(Vec<NewVarDecl>, Box<Module>),
    /// `OBSERVE m1 WITH m2`
    Observe(Box<Module>, Box<Module>),
    /// `BEGIN ... END`
    Base(BaseModule),
}

/// Variables that a `WITH` module adds.
#[derive(Debug)]
pub struct NewVarDecl {
    pub class: VarClass,
    pub decls: Vec<VarDecl>,
}

/// A module given by its sections.
#[derive(Debug)]
pub struct BaseModule {
    pub decls: Vec<BaseDecl>,
    pub span: Span,
}

/// A section of a base module.
#[derive(Debug)]
pub enum BaseDecl {
    /// State variables.
    Vars(VarClass, Vec<VarDecl>),
    /// Definitions.
    Definition(Vec<Definition>),
    /// The initial states.
    Initialization(Vec<DefOrCommand>),
    /// The transitions.
    Transition(Vec<DefOrCommand>),
}

/// A definition.
#[derive(Debug)]
pub enum Definition {
    /// One definition.
    Simple(SimpleDefinition),
    /// `(FORALL (decls) : defs)`
    Forall(Vec<VarDecl>, Vec<Definition>),
}

/// `lhs = rhs` or `lhs IN rhs`
#[derive(Debug)]
pub struct SimpleDefinition {
    pub lhs: Lhs,
    pub rhs: Rhs,
    pub span: Span,
}

/// `x['] accesses`
#[derive(Debug)]
pub struct Lhs {
    pub base: Ident,
    pub next: bool,
    pub accesses: Vec<Access>,
    pub span: Span,
}

/// The right side of a definition.
#[derive(Debug)]
pub enum Rhs {
    /// `= e`
    Expr(Expr),
    /// `IN e`
    Selection(Expr),
}

/// A definition, or a choice of commands.
#[derive(Debug)]
pub enum DefOrCommand {
    /// A definition.
    Def(Definition),
    /// `[ cmd [] cmd ... ]`
    Commands(Vec<SomeCommand>, Span),
}

/// A command.
#[derive(Debug)]
pub enum SomeCommand {
    /// A guarded command.
    Guarded(GuardedCommand),
    /// `([] (decls) : cmd)`
    Multi(Vec<VarDecl>, Box<SomeCommand>, Span),
}

/// `label: guard --> assignments`; the guard of an `ELSE` command is `None`.
#[derive(Debug)]
pub struct GuardedCommand {
    pub label: Option<Ident>,
    pub guard: Option<Expr>,
    pub assignments: Vec<Definition>,
    pub span: Span,
}

/// The value of [`Ident`].
pub ghost struct IdentV {
    pub name: Seq<char>,
    pub span: Span,
}

/// The value of [`ContextName`].
pub ghost struct ContextNameV {
    pub name: IdentV,
    pub actuals: Seq<ActualV>,
    pub span: Span,
}

/// The value of [`Actual`].
pub ghost enum ActualV {
    Expr(ExprV),
    Type(TypeV),
}

/// The value of [`Name`].
pub ghost struct NameV {
    pub ctx: Option<ContextNameV>,
    pub id: IdentV,
    pub span: Span,
}

/// The value of [`SalContext`].
pub ghost struct SalContextV {
    pub name: IdentV,
    pub params: Seq<CtxParamV>,
    pub decls: Seq<DeclV>,
    pub span: Span,
}

/// The value of [`CtxParam`].
pub ghost enum CtxParamV {
    Types(Seq<IdentV>),
    Vars(Seq<IdentV>, TypeV),
}

/// The value of [`Decl`].
#[allow(inconsistent_fields)]
pub ghost enum DeclV {
    Type { name: IdentV, def: Option<TypeDefV> },
    Constant { name: IdentV, args: Seq<VarDeclV>, ty: TypeV, value: Option<ExprV> },
    Context { name: IdentV, ctx: ContextNameV },
    Module { name: IdentV, params: Seq<VarDeclV>, body: ModuleV },
    Assertion { name: IdentV, form: AssertionForm, body: AssertionExprV },
    Import { ctx: ContextNameV, renames: Seq<(IdentV, IdentV)> },
}

/// The value of [`AssertionExpr`].
pub ghost enum AssertionExprV {
    Models { module: ModuleV, formula: ExprV },
    Implements { concrete: ModuleV, abstract_: ModuleV },
}

/// The value of [`TypeDef`].
pub ghost enum TypeDefV {
    Type(TypeV),
    Scalar(Seq<IdentV>),
    Datatype(Seq<ConstructorV>),
    Scalarset(ExprV),
    Ringset(ExprV),
}

/// The value of [`Constructor`].
pub ghost struct ConstructorV {
    pub name: IdentV,
    pub accessors: Seq<VarDeclV>,
}

/// The value of [`Type`].
pub ghost struct TypeV {
    pub kind: TypeKindV,
    pub span: Span,
}

/// The value of [`TypeKind`].
pub ghost enum TypeKindV {
    Name(NameV),
    Subrange(Box<ExprV>, Box<ExprV>),
    Subtype(Box<SetPredV>),
    Array(Box<TypeV>, Box<TypeV>),
    Tuple(Seq<TypeV>),
    Function(Box<TypeV>, Box<TypeV>),
    Record(Seq<FieldDeclV>),
    State(Box<ModuleV>),
}

/// The value of [`FieldDecl`].
pub ghost struct FieldDeclV {
    pub name: IdentV,
    pub ty: TypeV,
}

/// The value of [`SetPred`].
pub ghost struct SetPredV {
    pub var: IdentV,
    pub ty: TypeV,
    pub pred: ExprV,
    pub span: Span,
}

/// The value of [`VarDecl`].
pub ghost struct VarDeclV {
    pub names: Seq<IdentV>,
    pub ty: TypeV,
    pub span: Span,
}

/// The value of [`Expr`].
pub ghost struct ExprV {
    pub kind: ExprKindV,
    pub span: Span,
    pub parens: u32,
}

/// The value of [`ExprKind`].
pub ghost enum ExprKindV {
    Name(NameV),
    Next(IdentV),
    Numeral(Seq<char>),
    Float { numer: Seq<char>, denom: Seq<char> },
    Str(Seq<char>),
    Binary(BinOp, Box<ExprV>, Box<ExprV>),
    Unary(UnOp, Box<ExprV>),
    App(Box<ExprV>, Seq<ExprV>),
    ArraySelect(Box<ExprV>, Box<ExprV>),
    RecordSelect(Box<ExprV>, IdentV),
    TupleSelect(Box<ExprV>, u32),
    Update { target: Box<ExprV>, accesses: Seq<AccessV>, value: Box<ExprV> },
    Lambda(Seq<VarDeclV>, Box<ExprV>),
    Quantified(Quantifier, Seq<VarDeclV>, Box<ExprV>),
    Let(Seq<LetDeclV>, Box<ExprV>),
    SetPred(Box<SetPredV>),
    SetList(Seq<ExprV>),
    ArrayLit(Box<VarDeclV>, Box<ExprV>),
    RecordLit(Seq<(IdentV, ExprV)>),
    TupleLit(Seq<ExprV>),
    Conditional { cond: Box<ExprV>, then_: Box<ExprV>, els: Box<ExprV>, is_elsif: bool },
    ModInit(Box<ModuleV>),
    ModTrans(Box<ModuleV>),
    Unbounded,
}

/// The value of [`Access`].
pub ghost enum AccessV {
    Array(ExprV),
    Record(IdentV),
    Tuple(u32),
    Args(Seq<ExprV>),
}

/// The value of [`LetDecl`].
pub ghost struct LetDeclV {
    pub name: IdentV,
    pub ty: TypeV,
    pub value: ExprV,
}

/// The value of [`Module`].
pub ghost struct ModuleV {
    pub kind: ModuleKindV,
    pub span: Span,
    pub parens: u32,
}

/// The value of [`ModuleKind`].
pub ghost enum ModuleKindV {
    Instance(NameV, Seq<ExprV>),
    Sync(Box<ModuleV>, Box<ModuleV>),
    Async(Box<ModuleV>, Box<ModuleV>),
    MultiSync(Box<VarDeclV>, Box<ModuleV>),
    MultiAsync(Box<VarDeclV>, Box<ModuleV>),
    Hide(Seq<IdentV>, Box<ModuleV>),
    NewOutput(Seq<IdentV>, Box<ModuleV>),
    Rename(Seq<(LhsV, LhsV)>, Box<ModuleV>),
    With(Seq<NewVarDeclV>, Box<ModuleV>),
    Observe(Box<ModuleV>, Box<ModuleV>),
    Base(BaseModuleV),
}

/// The value of [`NewVarDecl`].
pub ghost struct NewVarDeclV {
    pub class: VarClass,
    pub decls: Seq<VarDeclV>,
}

/// The value of [`BaseModule`].
pub ghost struct BaseModuleV {
    pub decls: Seq<BaseDeclV>,
    pub span: Span,
}

/// The value of [`BaseDecl`].
pub ghost enum BaseDeclV {
    Vars(VarClass, Seq<VarDeclV>),
    Definition(Seq<DefinitionV>),
    Initialization(Seq<DefOrCommandV>),
    Transition(Seq<DefOrCommandV>),
}

/// The value of [`Definition`].
pub ghost enum DefinitionV {
    Simple(SimpleDefinitionV),
    Forall(Seq<VarDeclV>, Seq<DefinitionV>),
}

/// The value of [`SimpleDefinition`].
pub ghost struct SimpleDefinitionV {
    pub lhs: LhsV,
    pub rhs: RhsV,
    pub span: Span,
}

/// The value of [`Lhs`].
pub ghost struct LhsV {
    pub base: IdentV,
    pub next: bool,
    pub accesses: Seq<AccessV>,
    pub span: Span,
}

/// The value of [`Rhs`].
pub ghost enum RhsV {
    Expr(ExprV),
    Selection(ExprV),
}

/// The value of [`DefOrCommand`].
pub ghost enum DefOrCommandV {
    Def(DefinitionV),
    Commands(Seq<SomeCommandV>, Span),
}

/// The value of [`SomeCommand`].
pub ghost enum SomeCommandV {
    Guarded(GuardedCommandV),
    Multi(Seq<VarDeclV>, Box<SomeCommandV>, Span),
}

/// The value of [`GuardedCommand`].
pub ghost struct GuardedCommandV {
    pub label: Option<IdentV>,
    pub guard: Option<ExprV>,
    pub assignments: Seq<DefinitionV>,
    pub span: Span,
}

impl Ident {
    /// Its value.
    pub open spec fn model(&self) -> IdentV
        decreases self,
    {
        IdentV { name: self.name@, span: self.span }
    }
}

impl ContextName {
    /// Its value.
    pub open spec fn model(&self) -> ContextNameV
        decreases self,
    {
        ContextNameV { name: self.name.model(), actuals: actual_models(self.actuals@), span: self.span }
    }
}

impl Actual {
    /// Its value.
    pub open spec fn model(&self) -> ActualV
        decreases self,
    {
        match self {
            Actual::Expr(a) => ActualV::Expr(a.model()),
            Actual::Type(a) => ActualV::Type(a.model()),
        }
    }
}

impl Name {
    /// Its value.
    pub open spec fn model(&self) -> NameV
        decreases self,
    {
        NameV { ctx: match &self.ctx { Some(x) => Some(x.model()), None => None }, id: self.id.model(), span: self.span }
    }
}

impl SalContext {
    /// Its value.
    pub open spec fn model(&self) -> SalContextV
        decreases self,
    {
        SalContextV { name: self.name.model(), params: ctx_param_models(self.params@), decls: decl_models(self.decls@), span: self.span }
    }
}

impl CtxParam {
    /// Its value.
    pub open spec fn model(&self) -> CtxParamV
        decreases self,
    {
        match self {
            CtxParam::Types(a) => CtxParamV::Types(ident_models(a@)),
            CtxParam::Vars(a, b) => CtxParamV::Vars(ident_models(a@), b.model()),
        }
    }
}

impl Decl {
    /// Its value.
    pub open spec fn model(&self) -> DeclV
        decreases self,
    {
        match self {
            Decl::Type { name, def } => DeclV::Type { name: name.model(), def: match def { Some(x) => Some(x.model()), None => None } },
            Decl::Constant { name, args, ty, value } => DeclV::Constant { name: name.model(), args: var_decl_models(args@), ty: ty.model(), value: match value { Some(x) => Some(x.model()), None => None } },
            Decl::Context { name, ctx } => DeclV::Context { name: name.model(), ctx: ctx.model() },
            Decl::Module { name, params, body } => DeclV::Module { name: name.model(), params: var_decl_models(params@), body: body.model() },
            Decl::Assertion { name, form, body } => DeclV::Assertion { name: name.model(), form: *form, body: body.model() },
            Decl::Import { ctx, renames } => DeclV::Import { ctx: ctx.model(), renames: ident_ident_pairs(renames@) },
        }
    }
}

impl AssertionExpr {
    /// Its value.
    pub open spec fn model(&self) -> AssertionExprV
        decreases self,
    {
        match self {
            AssertionExpr::Models { module, formula } => AssertionExprV::Models { module: module.model(), formula: formula.model() },
            AssertionExpr::Implements { concrete, abstract_ } => AssertionExprV::Implements { concrete: concrete.model(), abstract_: abstract_.model() },
        }
    }
}

impl TypeDef {
    /// Its value.
    pub open spec fn model(&self) -> TypeDefV
        decreases self,
    {
        match self {
            TypeDef::Type(a) => TypeDefV::Type(a.model()),
            TypeDef::Scalar(a) => TypeDefV::Scalar(ident_models(a@)),
            TypeDef::Datatype(a) => TypeDefV::Datatype(constructor_models(a@)),
            TypeDef::Scalarset(a) => TypeDefV::Scalarset(a.model()),
            TypeDef::Ringset(a) => TypeDefV::Ringset(a.model()),
        }
    }
}

impl Constructor {
    /// Its value.
    pub open spec fn model(&self) -> ConstructorV
        decreases self,
    {
        ConstructorV { name: self.name.model(), accessors: var_decl_models(self.accessors@) }
    }
}

impl Type {
    /// Its value.
    pub open spec fn model(&self) -> TypeV
        decreases self,
    {
        TypeV { kind: self.kind.model(), span: self.span }
    }
}

impl TypeKind {
    /// Its value.
    pub open spec fn model(&self) -> TypeKindV
        decreases self,
    {
        match self {
            TypeKind::Name(a) => TypeKindV::Name(a.model()),
            TypeKind::Subrange(a, b) => TypeKindV::Subrange(Box::new(a.model()), Box::new(b.model())),
            TypeKind::Subtype(a) => TypeKindV::Subtype(Box::new(a.model())),
            TypeKind::Array(a, b) => TypeKindV::Array(Box::new(a.model()), Box::new(b.model())),
            TypeKind::Tuple(a) => TypeKindV::Tuple(type_models(a@)),
            TypeKind::Function(a, b) => TypeKindV::Function(Box::new(a.model()), Box::new(b.model())),
            TypeKind::Record(a) => TypeKindV::Record(field_decl_models(a@)),
            TypeKind::State(a) => TypeKindV::State(Box::new(a.model())),
        }
    }
}

impl FieldDecl {
    /// Its value.
    pub open spec fn model(&self) -> FieldDeclV
        decreases self,
    {
        FieldDeclV { name: self.name.model(), ty: self.ty.model() }
    }
}

impl SetPred {
    /// Its value.
    pub open spec fn model(&self) -> SetPredV
        decreases self,
    {
        SetPredV { var: self.var.model(), ty: self.ty.model(), pred: self.pred.model(), span: self.span }
    }
}

impl VarDecl {
    /// Its value.
    pub open spec fn model(&self) -> VarDeclV
        decreases self,
    {
        VarDeclV { names: ident_models(self.names@), ty: self.ty.model(), span: self.span }
    }
}

impl Expr {
    /// Its value.
    pub open spec fn model(&self) -> ExprV
        decreases self,
    {
        ExprV { kind: self.kind.model(), span: self.span, parens: self.parens }
    }
}

impl ExprKind {
    /// Its value.
    pub open spec fn model(&self) -> ExprKindV
        decreases self,
    {
        match self {
            ExprKind::Name(a) => ExprKindV::Name(a.model()),
            ExprKind::Next(a) => ExprKindV::Next(a.model()),
            ExprKind::Numeral(a) => ExprKindV::Numeral(a@),
            ExprKind::Float { numer, denom } => ExprKindV::Float { numer: numer@, denom: denom@ },
            ExprKind::Str(a) => ExprKindV::Str(a@),
            ExprKind::Binary(a, b, c) => ExprKindV::Binary(*a, Box::new(b.model()), Box::new(c.model())),
            ExprKind::Unary(a, b) => ExprKindV::Unary(*a, Box::new(b.model())),
            ExprKind::App(a, b) => ExprKindV::App(Box::new(a.model()), expr_models(b@)),
            ExprKind::ArraySelect(a, b) => ExprKindV::ArraySelect(Box::new(a.model()), Box::new(b.model())),
            ExprKind::RecordSelect(a, b) => ExprKindV::RecordSelect(Box::new(a.model()), b.model()),
            ExprKind::TupleSelect(a, b) => ExprKindV::TupleSelect(Box::new(a.model()), *b),
            ExprKind::Update { target, accesses, value } => ExprKindV::Update { target: Box::new(target.model()), accesses: access_models(accesses@), value: Box::new(value.model()) },
            ExprKind::Lambda(a, b) => ExprKindV::Lambda(var_decl_models(a@), Box::new(b.model())),
            ExprKind::Quantified(a, b, c) => ExprKindV::Quantified(
                *a,
                var_decl_models(b@),
                Box::new(c.model())
            ),
            ExprKind::Let(a, b) => ExprKindV::Let(let_decl_models(a@), Box::new(b.model())),
            ExprKind::SetPred(a) => ExprKindV::SetPred(Box::new(a.model())),
            ExprKind::SetList(a) => ExprKindV::SetList(expr_models(a@)),
            ExprKind::ArrayLit(a, b) => ExprKindV::ArrayLit(Box::new(a.model()), Box::new(b.model())),
            ExprKind::RecordLit(a) => ExprKindV::RecordLit(ident_expr_pairs(a@)),
            ExprKind::TupleLit(a) => ExprKindV::TupleLit(expr_models(a@)),
            ExprKind::Conditional { cond, then_, els, is_elsif } => ExprKindV::Conditional { cond: Box::new(cond.model()), then_: Box::new(then_.model()), els: Box::new(els.model()), is_elsif: *is_elsif },
            ExprKind::ModInit(a) => ExprKindV::ModInit(Box::new(a.model())),
            ExprKind::ModTrans(a) => ExprKindV::ModTrans(Box::new(a.model())),
            ExprKind::Unbounded => ExprKindV::Unbounded,
        }
    }
}

impl Access {
    /// Its value.
    pub open spec fn model(&self) -> AccessV
        decreases self,
    {
        match self {
            Access::Array(a) => AccessV::Array(a.model()),
            Access::Record(a) => AccessV::Record(a.model()),
            Access::Tuple(a) => AccessV::Tuple(*a),
            Access::Args(a) => AccessV::Args(expr_models(a@)),
        }
    }
}

impl LetDecl {
    /// Its value.
    pub open spec fn model(&self) -> LetDeclV
        decreases self,
    {
        LetDeclV { name: self.name.model(), ty: self.ty.model(), value: self.value.model() }
    }
}

impl Module {
    /// Its value.
    pub open spec fn model(&self) -> ModuleV
        decreases self,
    {
        ModuleV { kind: self.kind.model(), span: self.span, parens: self.parens }
    }
}

impl ModuleKind {
    /// Its value.
    pub open spec fn model(&self) -> ModuleKindV
        decreases self,
    {
        match self {
            ModuleKind::Instance(a, b) => ModuleKindV::Instance(a.model(), expr_models(b@)),
            ModuleKind::Sync(a, b) => ModuleKindV::Sync(Box::new(a.model()), Box::new(b.model())),
            ModuleKind::Async(a, b) => ModuleKindV::Async(Box::new(a.model()), Box::new(b.model())),
            ModuleKind::MultiSync(a, b) => ModuleKindV::MultiSync(Box::new(a.model()), Box::new(b.model())),
            ModuleKind::MultiAsync(a, b) => ModuleKindV::MultiAsync(Box::new(a.model()), Box::new(b.model())),
            ModuleKind::Hide(a, b) => ModuleKindV::Hide(ident_models(a@), Box::new(b.model())),
            ModuleKind::NewOutput(a, b) => ModuleKindV::NewOutput(ident_models(a@), Box::new(b.model())),
            ModuleKind::Rename(a, b) => ModuleKindV::Rename(lhs_lhs_pairs(a@), Box::new(b.model())),
            ModuleKind::With(a, b) => ModuleKindV::With(new_var_decl_models(a@), Box::new(b.model())),
            ModuleKind::Observe(a, b) => ModuleKindV::Observe(Box::new(a.model()), Box::new(b.model())),
            ModuleKind::Base(a) => ModuleKindV::Base(a.model()),
        }
    }
}

impl NewVarDecl {
    /// Its value.
    pub open spec fn model(&self) -> NewVarDeclV
        decreases self,
    {
        NewVarDeclV { class: self.class, decls: var_decl_models(self.decls@) }
    }
}

impl BaseModule {
    /// Its value.
    pub open spec fn model(&self) -> BaseModuleV
        decreases self,
    {
        BaseModuleV { decls: base_decl_models(self.decls@), span: self.span }
    }
}

impl BaseDecl {
    /// Its value.
    pub open spec fn model(&self) -> BaseDeclV
        decreases self,
    {
        match self {
            BaseDecl::Vars(a, b) => BaseDeclV::Vars(*a, var_decl_models(b@)),
            BaseDecl::Definition(a) => BaseDeclV::Definition(definition_models(a@)),
            BaseDecl::Initialization(a) => BaseDeclV::Initialization(def_or_command_models(a@)),
            BaseDecl::Transition(a) => BaseDeclV::Transition(def_or_command_models(a@)),
        }
    }
}

impl Definition {
    /// Its value.
    pub open spec fn model(&self) -> DefinitionV
        decreases self,
    {
        match self {
            Definition::Simple(a) => DefinitionV::Simple(a.model()),
            Definition::Forall(a, b) => DefinitionV::Forall(var_decl_models(a@), definition_models(b@)),
        }
    }
}

impl SimpleDefinition {
    /// Its value.
    pub open spec fn model(&self) -> SimpleDefinitionV
        decreases self,
    {
        SimpleDefinitionV { lhs: self.lhs.model(), rhs: self.rhs.model(), span: self.span }
    }
}

impl Lhs {
    /// Its value.
    pub open spec fn model(&self) -> LhsV
        decreases self,
    {
        LhsV { base: self.base.model(), next: self.next, accesses: access_models(self.accesses@), span: self.span }
    }
}

impl Rhs {
    /// Its value.
    pub open spec fn model(&self) -> RhsV
        decreases self,
    {
        match self {
            Rhs::Expr(a) => RhsV::Expr(a.model()),
            Rhs::Selection(a) => RhsV::Selection(a.model()),
        }
    }
}

impl DefOrCommand {
    /// Its value.
    pub open spec fn model(&self) -> DefOrCommandV
        decreases self,
    {
        match self {
            DefOrCommand::Def(a) => DefOrCommandV::Def(a.model()),
            DefOrCommand::Commands(a, b) => DefOrCommandV::Commands(some_command_models(a@), *b),
        }
    }
}

impl SomeCommand {
    /// Its value.
    pub open spec fn model(&self) -> SomeCommandV
        decreases self,
    {
        match self {
            SomeCommand::Guarded(a) => SomeCommandV::Guarded(a.model()),
            SomeCommand::Multi(a, b, c) => SomeCommandV::Multi(var_decl_models(a@), Box::new(b.model()), *c),
        }
    }
}

impl GuardedCommand {
    /// Its value.
    pub open spec fn model(&self) -> GuardedCommandV
        decreases self,
    {
        GuardedCommandV { label: match &self.label { Some(x) => Some(x.model()), None => None }, guard: match &self.guard { Some(x) => Some(x.model()), None => None }, assignments: definition_models(self.assignments@), span: self.span }
    }
}

/// The values of a list.
pub open spec fn access_models(v: Seq<Access>) -> Seq<AccessV>
    decreases v,
{
    Seq::new(
        v.len(),
        |i: int|
            if 0 <= i < v.len() {
                v[i].model()
            } else {
                arbitrary()
            },
    )
}

/// The values of a list.
pub open spec fn actual_models(v: Seq<Actual>) -> Seq<ActualV>
    decreases v,
{
    Seq::new(
        v.len(),
        |i: int|
            if 0 <= i < v.len() {
                v[i].model()
            } else {
                arbitrary()
            },
    )
}

/// The values of a list.
pub open spec fn base_decl_models(v: Seq<BaseDecl>) -> Seq<BaseDeclV>
    decreases v,
{
    Seq::new(
        v.len(),
        |i: int|
            if 0 <= i < v.len() {
                v[i].model()
            } else {
                arbitrary()
            },
    )
}

/// The values of a list.
pub open spec fn constructor_models(v: Seq<Constructor>) -> Seq<ConstructorV>
    decreases v,
{
    Seq::new(
        v.len(),
        |i: int|
            if 0 <= i < v.len() {
                v[i].model()
            } else {
                arbitrary()
            },
    )
}

/// The values of a list.
pub open spec fn ctx_param_models(v: Seq<CtxParam>) -> Seq<CtxParamV>
    decreases v,
{
    Seq::new(
        v.len(),
        |i: int|
            if 0 <= i < v.len() {
                v[i].model()
            } else {
                arbitrary()
            },
    )
}

/// The values of a list.
pub open spec fn decl_models(v: Seq<Decl>) -> Seq<DeclV>
    decreases v,
{
    Seq::new(
        v.len(),
        |i: int|
            if 0 <= i < v.len() {
                v[i].model()
            } else {
                arbitrary()
            },
    )
}

/// The values of a list.
pub open spec fn def_or_command_models(v: Seq<DefOrCommand>) -> Seq<DefOrCommandV>
    decreases v,
{
    Seq::new(
        v.len(),
        |i: int|
            if 0 <= i < v.len() {
                v[i].model()
            } else {
                arbitrary()
            },
    )
}

/// The values of a list.
pub open spec fn definition_models(v: Seq<Definition>) -> Seq<DefinitionV>
    decreases v,
{
    Seq::new(
        v.len(),
        |i: int|
            if 0 <= i < v.len() {
                v[i].model()
            } else {
                arbitrary()
            },
    )
}

/// The values of a list.
pub open spec fn expr_models(v: Seq<Expr>) -> Seq<ExprV>
    decreases v,
{
    Seq::new(
        v.len(),
        |i: int|
            if 0 <= i < v.len() {
                v[i].model()
            } else {
                arbitrary()
            },
    )
}

/// The values of a list.
pub open spec fn field_decl_models(v: Seq<FieldDecl>) -> Seq<FieldDeclV>
    decreases v,
{
    Seq::new(
        v.len(),
        |i: int|
            if 0 <= i < v.len() {
                v[i].model()
            } else {
                arbitrary()
            },
    )
}

/// The values of a list.
pub open spec fn ident_expr_pairs(v: Seq<(Ident, Expr)>) -> Seq<(IdentV, ExprV)>
    decreases v,
{
    Seq::new(
        v.len(),
        |i: int|
            if 0 <= i < v.len() {
                (v[i].0.model(), v[i].1.model())
            } else {
                arbitrary()
            },
    )
}

/// The values of a list.
pub open spec fn ident_ident_pairs(v: Seq<(Ident, Ident)>) -> Seq<(IdentV, IdentV)>
    decreases v,
{
    Seq::new(
        v.len(),
        |i: int|
            if 0 <= i < v.len() {
                (v[i].0.model(), v[i].1.model())
            } else {
                arbitrary()
            },
    )
}

/// The values of a list.
pub open spec fn ident_models(v: Seq<Ident>) -> Seq<IdentV>
    decreases v,
{
    Seq::new(
        v.len(),
        |i: int|
            if 0 <= i < v.len() {
                v[i].model()
            } else {
                arbitrary()
            },
    )
}

/// The values of a list.
pub open spec fn let_decl_models(v: Seq<LetDecl>) -> Seq<LetDeclV>
    decreases v,
{
    Seq::new(
        v.len(),
        |i: int|
            if 0 <= i < v.len() {
                v[i].model()
            } else {
                arbitrary()
            },
    )
}

/// The values of a list.
pub open spec fn lhs_lhs_pairs(v: Seq<(Lhs, Lhs)>) -> Seq<(LhsV, LhsV)>
    decreases v,
{
    Seq::new(
        v.len(),
        |i: int|
            if 0 <= i < v.len() {
                (v[i].0.model(), v[i].1.model())
            } else {
                arbitrary()
            },
    )
}

/// The values of a list.
pub open spec fn new_var_decl_models(v: Seq<NewVarDecl>) -> Seq<NewVarDeclV>
    decreases v,
{
    Seq::new(
        v.len(),
        |i: int|
            if 0 <= i < v.len() {
                v[i].model()
            } else {
                arbitrary()
            },
    )
}

/// The values of a list.
pub open spec fn some_command_models(v: Seq<SomeCommand>) -> Seq<SomeCommandV>
    decreases v,
{
    Seq::new(
        v.len(),
        |i: int|
            if 0 <= i < v.len() {
                v[i].model()
            } else {
                arbitrary()
            },
    )
}

/// The values of a list.
pub open spec fn type_models(v: Seq<Type>) -> Seq<TypeV>
    decreases v,
{
    Seq::new(
        v.len(),
        |i: int|
            if 0 <= i < v.len() {
                v[i].model()
            } else {
                arbitrary()
            },
    )
}

/// The values of a list.
pub open spec fn var_decl_models(v: Seq<VarDecl>) -> Seq<VarDeclV>
    decreases v,
{
    Seq::new(
        v.len(),
        |i: int|
            if 0 <= i < v.len() {
                v[i].model()
            } else {
                arbitrary()
            },
    )
}

/// The value of a definition of one left side.
pub proof fn definition_simple(a: SimpleDefinition)
    ensures
        Definition::Simple(a).model() == DefinitionV::Simple(a.model()),
{
}

/// The value of a definition for all values of variables.
pub proof fn definition_forall(a: Vec<VarDecl>, b: Vec<Definition>)
    ensures
        Definition::Forall(a, b).model() == DefinitionV::Forall(var_decl_models(a@), definition_models(b@)),
{
}

/// Whether a right side is a selection, and its expression.
#[verifier::opaque]
pub open spec fn rhs_value(r: RhsV) -> (bool, ExprV) {
    match r {
        RhsV::Expr(e) => (false, e),
        RhsV::Selection(e) => (true, e),
    }
}

/// The value of a right side that is an expression.
pub proof fn rhs_expr(e: Expr)
    ensures
        Rhs::Expr(e).model() == RhsV::Expr(e.model()),
        rhs_value(RhsV::Expr(e.model())) == (false, e.model()),
{
    reveal(rhs_value);
}

/// The value of a right side that is a selection.
pub proof fn rhs_selection(e: Expr)
    ensures
        Rhs::Selection(e).model() == RhsV::Selection(e.model()),
        rhs_value(RhsV::Selection(e.model())) == (true, e.model()),
{
    reveal(rhs_value);
}

/// Whether a right side is a selection, and its expression.
pub fn rhs_parts(r: &Rhs) -> (res: (bool, &Expr))
    ensures
        *r == if res.0 {
            Rhs::Selection(*res.1)
        } else {
            Rhs::Expr(*res.1)
        },
{
    match r {
        Rhs::Expr(e) => (false, e),
        Rhs::Selection(e) => (true, e),
    }
}

} // verus!
