//! Symbol tables, scopes and context instances.

use crate::ast::{
    ctx_param_models, ident_ident_pairs, ident_models, var_decl_models, AssertionExpr, AssertionExprV,
    AssertionForm, CtxParam, CtxParamV, Expr, ExprV, Ident, IdentV, Module, ModuleV, SalContext, SalContextV, Type,
    TypeDef, TypeDefV, TypeV, VarClass, VarDecl, VarDeclV,
};
use crate::dup::dup_var_decls;
use crate::lexer::characters;
use crate::num::{dec, Int};
use crate::parser::opt_expr;
use crate::printer::{expr_text, print_expr};
use crate::text::{join, joined, own, put, views};
use crate::types::{sem_fields, sem_models, sem_text, SemType, Tid, TypeId, ST};
use vstd::prelude::*;

verus! {

/// A state variable of a module.
#[derive(Debug)]
pub struct StateVar {
    /// Its name.
    pub name: String,
    /// Its class.
    pub class: VarClass,
    /// Its type.
    pub ty: SemType,
}

/// The content of a state variable: its name, class and type.
pub type VarV = (Seq<char>, VarClass, ST);

impl StateVar {
    /// The content.
    pub open spec fn model(&self) -> VarV {
        (self.name@, self.class, self.ty.model())
    }
}

impl Clone for StateVar {
    fn clone(&self) -> (r: StateVar)
        ensures
            r.model() == self.model(),
    {
        StateVar { name: self.name.clone(), class: self.class, ty: self.ty.clone() }
    }
}

/// The contents of state variables.
pub open spec fn var_views(v: Seq<StateVar>) -> Seq<VarV> {
    Seq::new(v.len(), |i: int| v[i].model())
}

/// Copies state variables.
pub fn copy_vars(v: &Vec<StateVar>) -> (r: Vec<StateVar>)
    ensures
        var_views(r@) == var_views(v@),
{
    let mut r: Vec<StateVar> = Vec::new();
    let mut i: usize = 0;
    while i < v.len()
        invariant
            i <= v@.len(),
            r@.len() == i,
            forall|j: int| 0 <= j < i ==> (#[trigger] r@[j]).model() == v@[j].model(),
        decreases v.len() - i,
    {
        r.push(v[i].clone());
        i += 1;
    }
    assert(var_views(r@) =~= var_views(v@));
    r
}

/// Copies named types.
pub fn copy_fields(v: &Vec<(String, SemType)>) -> (r: Vec<(String, SemType)>)
    ensures
        sem_fields(r@) == sem_fields(v@),
{
    let mut r: Vec<(String, SemType)> = Vec::new();
    let mut i: usize = 0;
    while i < v.len()
        invariant
            i <= v@.len(),
            r@.len() == i,
            forall|j: int|
                0 <= j < i ==> (#[trigger] r@[j]).0@ == v@[j].0@ && r@[j].1.model() == v@[j].1.model(),
        decreases v.len() - i,
    {
        r.push((v[i].0.clone(), v[i].1.clone()));
        i += 1;
    }
    assert(sem_fields(r@) =~= sem_fields(v@));
    r
}

/// What a name stands for in a context.
#[derive(Debug)]
pub enum Entry {
    /// A type, and its definition where it has one.
    Type(SemType, Option<TypeDef>),
    /// A constant of a type, and its value where it has one; that of a function is a lambda.
    Const(SemType, Option<Expr>),
    /// A module: its parameters, its state variables, its body and the declarations of its parameters.
    Module(Vec<(String, SemType)>, Vec<StateVar>, Module, Vec<VarDecl>),
    /// An assertion.
    Assertion(AssertionForm, AssertionExpr),
    /// Another name for the context instance of this number.
    Ctx(usize),
}

/// The content of an entry.
pub ghost enum EntryV {
    Type(ST, Option<TypeDefV>),
    Const(ST, Option<ExprV>),
    Module(Seq<(Seq<char>, ST)>, Seq<VarV>, ModuleV, Seq<VarDeclV>),
    Assertion(AssertionForm, AssertionExprV),
    Ctx(nat),
}

/// The value of the definition of a type, where there is one.
pub open spec fn opt_type_def(x: Option<TypeDef>) -> Option<TypeDefV> {
    match x {
        Some(v) => Some(v.model()),
        None => None,
    }
}

/// Copies the definition of a type.
pub fn dup_type_def(x: &Option<TypeDef>) -> (r: Option<TypeDef>)
    ensures
        opt_type_def(r) == opt_type_def(*x),
{
    match x {
        Some(v) => Some(v.dup()),
        None => None,
    }
}

/// Copies an expression, where there is one.
pub fn dup_opt_expr(x: &Option<Expr>) -> (r: Option<Expr>)
    ensures
        opt_expr(r) == opt_expr(*x),
{
    match x {
        Some(v) => Some(v.dup()),
        None => None,
    }
}

impl Entry {
    /// The content.
    pub open spec fn model(&self) -> EntryV {
        match self {
            Entry::Type(t, d) => EntryV::Type(t.model(), opt_type_def(*d)),
            Entry::Const(t, v) => EntryV::Const(t.model(), opt_expr(*v)),
            Entry::Module(p, s, m, d) => EntryV::Module(
                sem_fields(p@),
                var_views(s@),
                m.model(),
                var_decl_models(d@),
            ),
            Entry::Assertion(f, b) => EntryV::Assertion(*f, b.model()),
            Entry::Ctx(i) => EntryV::Ctx(*i as nat),
        }
    }
}

impl Clone for Entry {
    fn clone(&self) -> (r: Entry)
        ensures
            r.model() == self.model(),
    {
        match self {
            Entry::Type(t, d) => Entry::Type(t.clone(), dup_type_def(d)),
            Entry::Const(t, v) => Entry::Const(t.clone(), dup_opt_expr(v)),
            Entry::Module(p, s, m, d) => Entry::Module(copy_fields(p), copy_vars(s), m.dup(), dup_var_decls(d)),
            Entry::Assertion(f, b) => Entry::Assertion(*f, b.dup()),
            Entry::Ctx(i) => Entry::Ctx(*i),
        }
    }
}

/// A symbol table: names and what they stand for, a later entry hiding an earlier one.
pub type SymbolsV = Seq<(Seq<char>, EntryV)>;

/// The content of a symbol table.
pub open spec fn symbol_views(v: Seq<(String, Entry)>) -> SymbolsV {
    Seq::new(v.len(), |i: int| (v[i].0@, v[i].1.model()))
}

/// What a name stands for: its last entry.
pub open spec fn symbol(s: SymbolsV, name: Seq<char>) -> Option<EntryV>
    decreases s.len(),
{
    if s.len() == 0 {
        None
    } else if s.last().0 == name {
        Some(s.last().1)
    } else {
        symbol(s.drop_last(), name)
    }
}

/// Looks a name up.
pub fn find_symbol<'a>(v: &'a Vec<(String, Entry)>, name: &String) -> (r: Option<&'a Entry>)
    ensures
        match (r, symbol(symbol_views(v@), name@)) {
            (Some(e), Some(f)) => e.model() == f,
            (None, None) => true,
            _ => false,
        },
{
    let mut i: usize = v.len();
    let ghost s = symbol_views(v@);
    assert(s.take(i as int) =~= s);
    while i > 0
        invariant
            i <= v@.len(),
            s == symbol_views(v@),
            symbol(s, name@) == symbol(s.take(i as int), name@),
        decreases i,
    {
        assert(s.take(i as int).last() == (v@[i - 1].0@, v@[i - 1].1.model()));
        assert(s.take(i as int).drop_last() =~= s.take(i - 1));
        if v[i - 1].0 == *name {
            return Some(&v[i - 1].1);
        }
        i -= 1;
    }
    None
}

/// An instance of a context.
#[derive(Debug)]
pub struct Instance {
    /// The name of the context.
    pub name: String,
    /// The key that tells the instance from others.
    pub key: String,
    /// What is given for its parameters.
    pub bindings: Vec<(String, Binding)>,
    /// The instance in which the actual parameters are written.
    pub from: usize,
    /// What its names stand for.
    pub symbols: Vec<(String, Entry)>,
    /// Whether it is still being checked.
    pub open: bool,
}

/// The content of an instance.
pub ghost struct InstV {
    pub name: Seq<char>,
    pub key: Seq<char>,
    pub bindings: Seq<(Seq<char>, BindingV)>,
    pub from: nat,
    pub symbols: SymbolsV,
    pub open: bool,
}

impl Instance {
    /// The content.
    pub open spec fn model(&self) -> InstV {
        InstV {
            name: self.name@,
            key: self.key@,
            bindings: binding_views(self.bindings@),
            from: self.from as nat,
            symbols: symbol_views(self.symbols@),
            open: self.open,
        }
    }
}

/// The contents of instances.
pub open spec fn inst_views(v: Seq<Instance>) -> Seq<InstV> {
    Seq::new(v.len(), |i: int| v[i].model())
}

/// The number of the instance with a key, from `i` on.
pub open spec fn instance_at(v: Seq<InstV>, key: Seq<char>, i: int) -> Option<nat>
    decreases v.len() - i,
{
    if i < 0 || i >= v.len() {
        None
    } else if v[i].key == key {
        Some(i as nat)
    } else {
        instance_at(v, key, i + 1)
    }
}

/// Finds the instance with a key; the first instance is the prelude, which has none.
pub fn find_instance(v: &Vec<Instance>, key: &String) -> (r: Option<usize>)
    ensures
        match (r, instance_at(inst_views(v@), key@, 1)) {
            (Some(i), Some(j)) => i == j && i < v@.len(),
            (None, None) => true,
            _ => false,
        },
{
    let mut i: usize = 1;
    while i < v.len()
        invariant
            1 <= i,
            instance_at(inst_views(v@), key@, 1) == instance_at(inst_views(v@), key@, i as int),
        decreases v.len() - i,
    {
        assert(inst_views(v@)[i as int] == v@[i as int].model());
        if v[i].key == *key {
            return Some(i);
        }
        i += 1;
    }
    None
}

/// The number of the last context with a name.
pub open spec fn source_at(v: Seq<SalContextV>, name: Seq<char>) -> Option<nat>
    decreases v.len(),
{
    if v.len() == 0 {
        None
    } else if v.last().name.name == name {
        Some((v.len() - 1) as nat)
    } else {
        source_at(v.drop_last(), name)
    }
}

/// The contents of contexts.
pub open spec fn context_views(v: Seq<SalContext>) -> Seq<SalContextV> {
    Seq::new(v.len(), |i: int| v[i].model())
}

/// Finds the last context with a name.
pub fn find_source(v: &Vec<SalContext>, name: &String) -> (r: Option<usize>)
    ensures
        match (r, source_at(context_views(v@), name@)) {
            (Some(i), Some(j)) => i == j && i < v@.len(),
            (None, None) => true,
            _ => false,
        },
{
    let mut i: usize = v.len();
    let ghost s = context_views(v@);
    assert(s.take(i as int) =~= s);
    while i > 0
        invariant
            i <= v@.len(),
            s == context_views(v@),
            source_at(s, name@) == source_at(s.take(i as int), name@),
        decreases i,
    {
        assert(s.take(i as int).last() == v@[i - 1].model());
        assert(s.take(i as int).drop_last() =~= s.take(i - 1));
        let ghost m = v@[i - 1].name.model();
        if v[i - 1].name.name == *name {
            return Some(i - 1);
        }
        i -= 1;
    }
    None
}

/// A variable in scope.
#[derive(Debug)]
pub struct Bind {
    /// Its name.
    pub name: String,
    /// Its type.
    pub ty: SemType,
    /// Whether it is a state variable.
    pub state: bool,
}

/// The variables in scope, a later one hiding an earlier one: names, types, and whether each is a
/// state variable.
pub type ScopeV = Seq<(Seq<char>, ST, bool)>;

/// The content of a scope.
pub open spec fn binds(v: Seq<Bind>) -> ScopeV {
    Seq::new(v.len(), |i: int| (v[i].name@, v[i].ty.model(), v[i].state))
}

/// The type of the last variable of a name; among state variables alone where `state`.
pub open spec fn scope_type(s: ScopeV, name: Seq<char>, state: bool) -> Option<ST>
    decreases s.len(),
{
    if s.len() == 0 {
        None
    } else if s.last().0 == name && (s.last().2 || !state) {
        Some(s.last().1)
    } else {
        scope_type(s.drop_last(), name, state)
    }
}

/// Looks a variable up.
pub fn find_type(v: &Vec<Bind>, name: &String, state: bool) -> (r: Option<SemType>)
    ensures
        match (r, scope_type(binds(v@), name@, state)) {
            (Some(e), Some(f)) => e.model() == f,
            (None, None) => true,
            _ => false,
        },
{
    let mut i: usize = v.len();
    let ghost s = binds(v@);
    assert(s.take(i as int) =~= s);
    while i > 0
        invariant
            i <= v@.len(),
            s == binds(v@),
            scope_type(s, name@, state) == scope_type(s.take(i as int), name@, state),
        decreases i,
    {
        assert(s.take(i as int).last() == (v@[i - 1].name@, v@[i - 1].ty.model(), v@[i - 1].state));
        assert(s.take(i as int).drop_last() =~= s.take(i - 1));
        if v[i - 1].name == *name && (v[i - 1].state || !state) {
            return Some(v[i - 1].ty.clone());
        }
        i -= 1;
    }
    None
}

/// Names of one type as variables in scope.
pub open spec fn named(ids: Seq<IdentV>, t: ST, state: bool) -> ScopeV {
    Seq::new(ids.len(), |i: int| (ids[i].name, t, state))
}

/// Brings a variable into scope.
pub fn bind(scope: &mut Vec<Bind>, name: &String, t: &SemType, state: bool)
    ensures
        binds(final(scope)@) == binds(old(scope)@).push((name@, t.model(), state)),
        binds(final(scope)@).take(binds(old(scope)@).len() as int) == binds(old(scope)@),
{
    let ghost s = scope@;
    scope.push(Bind { name: name.clone(), ty: t.clone(), state });
    assert(binds(scope@) =~= binds(s).push((name@, t.model(), state)));
    assert(binds(scope@).take(binds(s).len() as int) =~= binds(s));
}

/// Brings variables of one type into scope.
pub fn bind_all(scope: &mut Vec<Bind>, ids: &Vec<Ident>, t: &SemType, state: bool)
    ensures
        binds(final(scope)@) == binds(old(scope)@) + named(ident_models(ids@), t.model(), state),
        binds(final(scope)@).take(binds(old(scope)@).len() as int) == binds(old(scope)@),
{
    let ghost s = binds(scope@);
    let ghost n = named(ident_models(ids@), t.model(), state);
    let mut i: usize = 0;
    assert(n.take(0) =~= Seq::empty());
    assert(s + n.take(0) =~= s);
    while i < ids.len()
        invariant
            i <= ids@.len(),
            n == named(ident_models(ids@), t.model(), state),
            binds(scope@) == s + n.take(i as int),
        decreases ids.len() - i,
    {
        let ghost m = ids@[i as int].model();
        bind(scope, &ids[i].name, t, state);
        assert(n.take(i + 1) =~= n.take(i as int).push(n[i as int]));
        assert(binds(scope@) =~= s + n.take(i + 1));
        i += 1;
    }
    assert(n.take(i as int) =~= n);
    assert((s + n).take(s.len() as int) =~= s);
}

/// The first name alone.
pub open spec fn first_only(ids: Seq<IdentV>) -> Seq<IdentV> {
    if ids.len() == 0 {
        ids
    } else {
        seq![ids[0]]
    }
}

/// Brings the first of the named variables into scope.
pub fn bind_first(scope: &mut Vec<Bind>, ids: &Vec<Ident>, t: &SemType)
    ensures
        binds(final(scope)@) == binds(old(scope)@) + named(first_only(ident_models(ids@)), t.model(), false),
        binds(final(scope)@).take(binds(old(scope)@).len() as int) == binds(old(scope)@),
{
    let ghost s = binds(scope@);
    let ghost n = named(first_only(ident_models(ids@)), t.model(), false);
    if ids.len() > 0 {
        let ghost m = ids@[0].model();
        bind(scope, &ids[0].name, t, false);
        assert(binds(scope@) =~= s + n);
    } else {
        assert(s + n =~= s);
        assert(s.take(s.len() as int) =~= s);
    }
}

/// State variables as variables in scope.
pub open spec fn state_binds(vs: Seq<VarV>) -> ScopeV {
    Seq::new(vs.len(), |i: int| (vs[i].0, vs[i].2, true))
}

/// Brings state variables into scope.
pub fn bind_state(scope: &mut Vec<Bind>, vs: &Vec<StateVar>)
    ensures
        binds(final(scope)@) == binds(old(scope)@) + state_binds(var_views(vs@)),
        binds(final(scope)@).take(binds(old(scope)@).len() as int) == binds(old(scope)@),
{
    let ghost s = binds(scope@);
    let ghost n = state_binds(var_views(vs@));
    let mut i: usize = 0;
    assert(s + n.take(0) =~= s);
    while i < vs.len()
        invariant
            i <= vs@.len(),
            n == state_binds(var_views(vs@)),
            binds(scope@) == s + n.take(i as int),
        decreases vs.len() - i,
    {
        bind(scope, &vs[i].name, &vs[i].ty, true);
        assert(n[i as int] == (vs@[i as int].name@, vs@[i as int].ty.model(), true));
        assert(n.take(i + 1) =~= n.take(i as int).push(n[i as int]));
        assert(binds(scope@) =~= s + n.take(i + 1));
        i += 1;
    }
    assert(n.take(i as int) =~= n);
    assert((s + n).take(s.len() as int) =~= s);
}

/// As many times the same type.
pub open spec fn same_types(n: nat, t: ST) -> Seq<ST> {
    Seq::new(n, |i: int| t)
}

/// Appends a type several times.
pub fn append_same(v: Vec<SemType>, n: usize, t: &SemType) -> (r: Vec<SemType>)
    ensures
        sem_models(r@) == sem_models(v@) + same_types(n as nat, t.model()),
{
    let ghost s = sem_models(v@);
    let mut r = v;
    let mut i: usize = 0;
    assert(s + same_types(0, t.model()) =~= s);
    while i < n
        invariant
            i <= n,
            sem_models(r@) == s + same_types(i as nat, t.model()),
        decreases n - i,
    {
        let ghost a = r@;
        r.push(t.clone());
        assert(sem_models(r@) =~= sem_models(a).push(t.model()));
        assert(sem_models(r@) =~= s + same_types((i + 1) as nat, t.model()));
        i += 1;
    }
    r
}

/// Several types as one: the one, or the tuple of all.
pub open spec fn packed(ts: Seq<ST>) -> ST {
    if ts.len() == 1 {
        ts[0]
    } else {
        ST::Tuple(ts)
    }
}

/// Several types as one.
pub fn pack(ts: Vec<SemType>) -> (r: SemType)
    ensures
        r.model() == packed(sem_models(ts@)),
{
    if ts.len() == 1 {
        assert(sem_models(ts@)[0] == ts@[0].model());
        ts[0].clone()
    } else {
        SemType::Tuple(ts)
    }
}

/// Whether a type is `Any`.
pub fn is_any(t: &SemType) -> (r: bool)
    ensures
        r == (t.model() == ST::Any),
{
    match t {
        SemType::Any => true,
        _ => false,
    }
}

/// The type of a string: its length and its characters.
pub open spec fn string_sem() -> ST {
    ST::Tuple(seq![ST::Number, ST::Array(Box::new(ST::Number), Box::new(ST::Number))])
}

/// The type of a string.
pub fn string_type() -> (r: SemType)
    ensures
        r.model() == string_sem(),
{
    let chars = SemType::Array(Box::new(SemType::Number), Box::new(SemType::Number));
    proof {
        reveal_with_fuel(SemType::model, 3);
        assert(chars.model() == ST::Array(Box::new(ST::Number), Box::new(ST::Number)));
    }
    pair_type(SemType::Number, chars)
}

/// The type of a pair.
pub fn pair_type(a: SemType, b: SemType) -> (r: SemType)
    ensures
        r.model() == ST::Tuple(seq![a.model(), b.model()]),
{
    let mut v: Vec<SemType> = Vec::new();
    let ghost am = a.model();
    let ghost bm = b.model();
    v.push(a);
    v.push(b);
    assert(sem_models(v@) =~= seq![am, bm]);
    SemType::Tuple(v)
}

/// The function type from one type to another.
pub open spec fn fun_sem(a: ST, b: ST) -> ST {
    ST::Fun(Box::new(a), Box::new(b))
}

/// The function type from one type to another.
pub fn fun_type(a: SemType, b: SemType) -> (r: SemType)
    ensures
        r.model() == fun_sem(a.model(), b.model()),
{
    SemType::Fun(Box::new(a), Box::new(b))
}

/// The type of a field, from `i` on.
pub open spec fn field_type(fs: Seq<(Seq<char>, ST)>, name: Seq<char>, i: int) -> Option<ST>
    decreases fs.len() - i,
{
    if i < 0 || i >= fs.len() {
        None
    } else if fs[i].0 == name {
        Some(fs[i].1)
    } else {
        field_type(fs, name, i + 1)
    }
}

/// Finds a field.
pub fn find_field(fs: &Vec<(String, SemType)>, name: &String) -> (r: Option<SemType>)
    ensures
        match (r, field_type(sem_fields(fs@), name@, 0)) {
            (Some(e), Some(f)) => e.model() == f,
            (None, None) => true,
            _ => false,
        },
{
    let mut i: usize = 0;
    while i < fs.len()
        invariant
            field_type(sem_fields(fs@), name@, 0) == field_type(sem_fields(fs@), name@, i as int),
        decreases fs.len() - i,
    {
        assert(sem_fields(fs@)[i as int] == (fs@[i as int].0@, fs@[i as int].1.model()));
        if fs[i].0 == *name {
            return Some(fs[i].1.clone());
        }
        i += 1;
    }
    None
}

/// The first text does not come after the second; by their characters from `i` on.
pub open spec fn at_most(a: Seq<char>, b: Seq<char>, i: int) -> bool
    decreases a.len() - i,
{
    if i < 0 || i >= a.len() {
        true
    } else if i >= b.len() {
        false
    } else {
        a[i] < b[i] || (a[i] == b[i] && at_most(a, b, i + 1))
    }
}

/// Whether the first text does not come after the second.
pub fn is_at_most(a: &String, b: &String) -> (r: bool)
    ensures
        r == at_most(a@, b@, 0),
{
    let x = characters(a.as_str());
    let y = characters(b.as_str());
    let mut i: usize = 0;
    while i < x.len()
        invariant
            x@ == a@,
            y@ == b@,
            at_most(a@, b@, 0) == at_most(a@, b@, i as int),
        decreases x.len() - i,
    {
        if i >= y.len() {
            return false;
        }
        if x[i] != y[i] {
            return x[i] < y[i];
        }
        i += 1;
    }
    true
}

/// How many fields stand before a new one: those from `i` on whose name is not after its name.
pub open spec fn place(fs: Seq<(Seq<char>, ST)>, name: Seq<char>, i: int) -> int
    decreases fs.len() - i,
{
    if i < 0 || i >= fs.len() || !at_most(fs[i].0, name, 0) {
        i
    } else {
        place(fs, name, i + 1)
    }
}

/// The fields with one more, put behind those whose name is not after its name.
pub open spec fn field_in(fs: Seq<(Seq<char>, ST)>, name: Seq<char>, t: ST) -> Seq<(Seq<char>, ST)> {
    fs.insert(place(fs, name, 0), (name, t))
}

/// Adds a field in order.
pub fn insert_field(fs: Vec<(String, SemType)>, name: String, t: SemType) -> (r: Vec<(String, SemType)>)
    ensures
        sem_fields(r@) == field_in(sem_fields(fs@), name@, t.model()),
{
    let ghost s = sem_fields(fs@);
    let ghost e = (name@, t.model());
    let mut r = fs;
    let mut i: usize = 0;
    while i < r.len()
        invariant
            i <= r@.len(),
            s == sem_fields(r@),
            place(s, name@, 0) == place(s, name@, i as int),
        ensures
            place(s, name@, 0) == i,
        decreases r.len() - i,
    {
        assert(s[i as int] == (r@[i as int].0@, r@[i as int].1.model()));
        if !is_at_most(&r[i].0, &name) {
            break;
        }
        i += 1;
    }
    let ghost a = r@;
    r.insert(i, (name, t));
    assert(sem_fields(r@) =~= sem_fields(a).insert(i as int, e));
    r
}

/// The place of a state variable, from `i` on.
pub open spec fn var_at(vs: Seq<VarV>, name: Seq<char>, i: int) -> Option<nat>
    decreases vs.len() - i,
{
    if i < 0 || i >= vs.len() {
        None
    } else if vs[i].0 == name {
        Some(i as nat)
    } else {
        var_at(vs, name, i + 1)
    }
}

/// Finds a state variable.
pub fn find_var(vs: &Vec<StateVar>, name: &String) -> (r: Option<usize>)
    ensures
        match (r, var_at(var_views(vs@), name@, 0)) {
            (Some(i), Some(j)) => i == j && i < vs@.len(),
            (None, None) => true,
            _ => false,
        },
{
    let mut i: usize = 0;
    while i < vs.len()
        invariant
            var_at(var_views(vs@), name@, 0) == var_at(var_views(vs@), name@, i as int),
        decreases vs.len() - i,
    {
        assert(var_views(vs@)[i as int] == vs@[i as int].model());
        if vs[i].name == *name {
            return Some(i);
        }
        i += 1;
    }
    None
}

/// State variables of one class and type.
pub open spec fn state_named(ids: Seq<IdentV>, class: VarClass, t: ST) -> Seq<VarV> {
    Seq::new(ids.len(), |i: int| (ids[i].name, class, t))
}

/// Appends state variables of one class and type.
pub fn append_vars(v: Vec<StateVar>, ids: &Vec<Ident>, class: VarClass, t: &SemType) -> (r: Vec<StateVar>)
    ensures
        var_views(r@) == var_views(v@) + state_named(ident_models(ids@), class, t.model()),
{
    let ghost s = var_views(v@);
    let ghost n = state_named(ident_models(ids@), class, t.model());
    let mut r = v;
    let mut i: usize = 0;
    assert(s + n.take(0) =~= s);
    while i < ids.len()
        invariant
            i <= ids@.len(),
            n == state_named(ident_models(ids@), class, t.model()),
            var_views(r@) == s + n.take(i as int),
        decreases ids.len() - i,
    {
        let ghost m = ids@[i as int].model();
        let ghost a = r@;
        r.push(StateVar { name: ids[i].name.clone(), class, ty: t.clone() });
        assert(var_views(r@) =~= var_views(a).push(n[i as int]));
        assert(n.take(i + 1) =~= n.take(i as int).push(n[i as int]));
        assert(var_views(r@) =~= s + n.take(i + 1));
        i += 1;
    }
    assert(n.take(i as int) =~= n);
    r
}

/// The local variables made arrays over an index type.
pub open spec fn arrayed(vs: Seq<VarV>, index: ST) -> Seq<VarV> {
    Seq::new(
        vs.len(),
        |i: int|
            if vs[i].1 == VarClass::Local {
                (vs[i].0, vs[i].1, ST::Array(Box::new(index), Box::new(vs[i].2)))
            } else {
                vs[i]
            },
    )
}

/// Makes the local variables arrays over an index type.
pub fn array_locals(vs: Vec<StateVar>, index: &SemType) -> (r: Vec<StateVar>)
    ensures
        var_views(r@) == arrayed(var_views(vs@), index.model()),
{
    let ghost n = arrayed(var_views(vs@), index.model());
    let mut r: Vec<StateVar> = Vec::new();
    let mut i: usize = 0;
    while i < vs.len()
        invariant
            i <= vs@.len(),
            r@.len() == i,
            n == arrayed(var_views(vs@), index.model()),
            forall|j: int| 0 <= j < i ==> (#[trigger] r@[j]).model() == n[j],
        decreases vs.len() - i,
    {
        assert(var_views(vs@)[i as int] == vs@[i as int].model());
        if vs[i].class == VarClass::Local {
            let t = SemType::Array(Box::new(index.clone()), Box::new(vs[i].ty.clone()));
            r.push(StateVar { name: vs[i].name.clone(), class: vs[i].class, ty: t });
        } else {
            r.push(vs[i].clone());
        }
        i += 1;
    }
    assert(var_views(r@) =~= n);
    r
}

/// Gives the variable at a place another name, and moves it to the end.
pub fn rename_var(vs: Vec<StateVar>, p: usize, name: &String) -> (r: Vec<StateVar>)
    requires
        p < vs@.len(),
    ensures
        var_views(r@) == var_views(vs@).remove(p as int).push(
            (name@, var_views(vs@)[p as int].1, var_views(vs@)[p as int].2),
        ),
{
    let ghost s = var_views(vs@);
    let mut r = vs;
    let v = r.remove(p);
    assert(s[p as int] == v.model());
    let ghost a = r@;
    assert(var_views(a) =~= s.remove(p as int));
    r.push(StateVar { name: name.clone(), class: v.class, ty: v.ty });
    assert(var_views(r@) =~= var_views(a).push((name@, v.class, v.ty.model())));
    r
}

/// The variables without the one at a place, and with its place taken by a whole variable, once.
pub open spec fn replaced(vs: Seq<VarV>, p: int, name: Seq<char>, t: ST) -> Seq<VarV> {
    let rest = vs.remove(p);
    if var_at(rest, name, 0) is Some {
        rest
    } else {
        rest.push((name, vs[p].1, t))
    }
}

/// Replaces the variable at a place by a whole variable.
pub fn replace_var(vs: Vec<StateVar>, p: usize, name: &String, t: SemType) -> (r: Vec<StateVar>)
    requires
        p < vs@.len(),
    ensures
        var_views(r@) == replaced(var_views(vs@), p as int, name@, t.model()),
{
    let ghost s = var_views(vs@);
    let mut r = vs;
    let v = r.remove(p);
    assert(s[p as int] == v.model());
    let ghost a = r@;
    assert(var_views(a) =~= s.remove(p as int));
    if find_var(&r, name).is_none() {
        let ghost tm = t.model();
        r.push(StateVar { name: name.clone(), class: v.class, ty: t });
        assert(var_views(r@) =~= var_views(a).push((name@, v.class, tm)));
    }
    r
}

/// The formal parameters of a context, and whether each is a type; from parameter `i` on.
pub open spec fn formals(ps: Seq<CtxParamV>, i: int, acc: Seq<(Seq<char>, bool)>) -> Seq<(Seq<char>, bool)>
    decreases ps.len() - i,
{
    if i < 0 || i >= ps.len() {
        acc
    } else {
        match ps[i] {
            CtxParamV::Types(ids) => formals(ps, i + 1, acc + formal_names(ids, true)),
            CtxParamV::Vars(ids, _t) => formals(ps, i + 1, acc + formal_names(ids, false)),
        }
    }
}

/// Formal parameters of one kind.
pub open spec fn formal_names(ids: Seq<IdentV>, is_type: bool) -> Seq<(Seq<char>, bool)> {
    Seq::new(ids.len(), |i: int| (ids[i].name, is_type))
}

/// The content of formal parameters.
pub open spec fn formal_views(v: Seq<(String, bool)>) -> Seq<(Seq<char>, bool)> {
    Seq::new(v.len(), |i: int| (v[i].0@, v[i].1))
}

fn append_formals(v: Vec<(String, bool)>, ids: &Vec<Ident>, is_type: bool) -> (r: Vec<(String, bool)>)
    ensures
        formal_views(r@) == formal_views(v@) + formal_names(ident_models(ids@), is_type),
{
    let ghost s = formal_views(v@);
    let ghost n = formal_names(ident_models(ids@), is_type);
    let mut r = v;
    let mut i: usize = 0;
    assert(s + n.take(0) =~= s);
    while i < ids.len()
        invariant
            i <= ids@.len(),
            n == formal_names(ident_models(ids@), is_type),
            formal_views(r@) == s + n.take(i as int),
        decreases ids.len() - i,
    {
        let ghost m = ids@[i as int].model();
        let ghost a = r@;
        r.push((ids[i].name.clone(), is_type));
        assert(formal_views(r@) =~= formal_views(a).push(n[i as int]));
        assert(n.take(i + 1) =~= n.take(i as int).push(n[i as int]));
        assert(formal_views(r@) =~= s + n.take(i + 1));
        i += 1;
    }
    assert(n.take(i as int) =~= n);
    r
}

/// Lists the formal parameters of a context.
pub fn list_formals(ps: &Vec<CtxParam>) -> (r: Vec<(String, bool)>)
    ensures
        formal_views(r@) == formals(ctx_param_models(ps@), 0, Seq::empty()),
{
    let mut r: Vec<(String, bool)> = Vec::new();
    let mut i: usize = 0;
    assert(formal_views(r@) =~= Seq::empty());
    while i < ps.len()
        invariant
            i <= ps@.len(),
            formals(ctx_param_models(ps@), 0, Seq::empty()) == formals(
                ctx_param_models(ps@),
                i as int,
                formal_views(r@),
            ),
        decreases ps.len() - i,
    {
        let ghost m = ps@[i as int].model();
        assert(ctx_param_models(ps@)[i as int] == m);
        match &ps[i] {
            CtxParam::Types(ids) => {
                r = append_formals(r, ids, true);
            },
            CtxParam::Vars(ids, _t) => {
                r = append_formals(r, ids, false);
            },
        }
        i += 1;
    }
    r
}

/// What is given for a parameter of a context.
#[derive(Debug)]
pub enum Binding {
    /// A type, and how it is written.
    Type(SemType, Type),
    /// A value, as it is written.
    Expr(Expr),
}

/// The content of what is given for a parameter.
pub ghost enum BindingV {
    Type(ST, TypeV),
    Expr(ExprV),
}

impl Binding {
    /// The content.
    pub open spec fn model(&self) -> BindingV {
        match self {
            Binding::Type(s, t) => BindingV::Type(s.model(), t.model()),
            Binding::Expr(e) => BindingV::Expr(e.model()),
        }
    }
}

/// The contents of what is given for parameters.
pub open spec fn binding_views(v: Seq<(String, Binding)>) -> Seq<(Seq<char>, BindingV)> {
    Seq::new(v.len(), |i: int| (v[i].0@, v[i].1.model()))
}

/// What is given for a parameter; the last, if it is named several times.
pub open spec fn binding(v: Seq<(Seq<char>, BindingV)>, name: Seq<char>) -> Option<BindingV>
    decreases v.len(),
{
    if v.len() == 0 {
        None
    } else if v.last().0 == name {
        Some(v.last().1)
    } else {
        binding(v.drop_last(), name)
    }
}

/// Finds what is given for a parameter.
pub fn find_binding<'a>(v: &'a Vec<(String, Binding)>, name: &String) -> (r: Option<&'a Binding>)
    ensures
        match (r, binding(binding_views(v@), name@)) {
            (Some(e), Some(f)) => e.model() == f,
            (None, None) => true,
            _ => false,
        },
{
    let mut i: usize = v.len();
    let ghost s = binding_views(v@);
    assert(s.take(i as int) =~= s);
    while i > 0
        invariant
            i <= v@.len(),
            s == binding_views(v@),
            binding(s, name@) == binding(s.take(i as int), name@),
        decreases i,
    {
        assert(s.take(i as int).last() == (v@[i - 1].0@, v@[i - 1].1.model()));
        assert(s.take(i as int).drop_last() =~= s.take(i - 1));
        if v[i - 1].0 == *name {
            return Some(&v[i - 1].1);
        }
        i -= 1;
    }
    None
}

/// Adds what is given for a parameter.
pub fn add_binding(v: Vec<(String, Binding)>, name: String, b: Binding) -> (r: Vec<(String, Binding)>)
    ensures
        binding_views(r@) == binding_views(v@).push((name@, b.model())),
{
    let ghost s = v@;
    let ghost m = (name@, b.model());
    let mut r = v;
    r.push((name, b));
    assert(binding_views(r@) =~= binding_views(s).push(m));
    r
}

/// The text of what is given for a parameter: of a type, its semantic type.
pub open spec fn binding_text(b: BindingV) -> Seq<char> {
    match b {
        BindingV::Type(s, _t) => sem_text(s),
        BindingV::Expr(e) => expr_text(e),
    }
}

/// The texts of what is given, parameter by parameter.
pub open spec fn parts_of(v: Seq<(Seq<char>, BindingV)>) -> Seq<Seq<char>> {
    Seq::new(
        v.len(),
        |i: int|
            match binding(v, v[i].0) {
                Some(b) => binding_text(b),
                None => Seq::empty(),
            },
    )
}

/// The texts of what is given, parameter by parameter.
pub fn list_parts(v: &Vec<(String, Binding)>) -> (r: Vec<String>)
    ensures
        views(r@) == parts_of(binding_views(v@)),
{
    let ghost want = parts_of(binding_views(v@));
    let mut r: Vec<String> = Vec::new();
    let mut i: usize = 0;
    while i < v.len()
        invariant
            i <= v@.len(),
            r@.len() == i,
            want == parts_of(binding_views(v@)),
            forall|j: int| 0 <= j < i ==> (#[trigger] r@[j])@ == want[j],
        decreases v.len() - i,
    {
        assert(binding_views(v@)[i as int].0 == v@[i as int].0@);
        let t = match find_binding(v, &v[i].0) {
            Some(Binding::Type(s, _t)) => s.text(),
            Some(Binding::Expr(e)) => print_expr(e),
            None => {
                let none = own("");
                proof {
                    reveal_strlit("");
                    assert(none@ =~= Seq::empty());
                }
                none
            },
        };
        r.push(t);
        i += 1;
    }
    assert(views(r@) =~= want);
    r
}

/// The key of an instance: the name of the context, and its actual parameters in braces.
pub open spec fn key_text(name: Seq<char>, parts: Seq<Seq<char>>) -> Seq<char> {
    if parts.len() == 0 {
        name
    } else {
        name + "{"@ + joined(parts, ", "@) + "}"@
    }
}

/// The key of an instance, by which instances are told apart.
pub fn instance_key(name: &String, parts: &Vec<String>) -> (r: String)
    ensures
        r@ == key_text(name@, views(parts@)),
{
    let mut out = name.clone();
    if parts.len() > 0 {
        put(&mut out, "{");
        put(&mut out, join(parts, ", ").as_str());
        put(&mut out, "}");
    }
    out
}

/// The identity of a type declared in an instance.
pub fn type_id(key: &String, name: &String) -> (r: TypeId)
    ensures
        r@.ctx == key@,
        r@.name == name@,
{
    TypeId { ctx: key.clone(), name: name.clone() }
}

/// One entry.
pub fn one_entry(name: &String, e: Entry) -> (r: Vec<(String, Entry)>)
    ensures
        symbol_views(r@) == seq![(name@, e.model())],
{
    let ghost m = e.model();
    let mut r: Vec<(String, Entry)> = Vec::new();
    r.push((name.clone(), e));
    assert(symbol_views(r@) =~= seq![(name@, m)]);
    r
}

/// No entries.
pub fn no_entries() -> (r: Vec<(String, Entry)>)
    ensures
        symbol_views(r@) == SymbolsV::empty(),
{
    let r: Vec<(String, Entry)> = Vec::new();
    assert(symbol_views(r@) =~= SymbolsV::empty());
    r
}

/// Adds an entry.
pub fn add_entry(v: Vec<(String, Entry)>, name: String, e: Entry) -> (r: Vec<(String, Entry)>)
    ensures
        symbol_views(r@) == symbol_views(v@).push((name@, e.model())),
{
    let ghost m = (name@, e.model());
    let ghost s = v@;
    let mut r = v;
    r.push((name, e));
    assert(symbol_views(r@) =~= symbol_views(s).push(m));
    r
}

/// Constants of one type.
pub open spec fn consts(ids: Seq<IdentV>, t: ST) -> SymbolsV {
    Seq::new(ids.len(), |i: int| (ids[i].name, EntryV::Const(t, None)))
}

fn append_consts(v: Vec<(String, Entry)>, ids: &Vec<Ident>, t: &SemType) -> (r: Vec<(String, Entry)>)
    ensures
        symbol_views(r@) == symbol_views(v@) + consts(ident_models(ids@), t.model()),
{
    let ghost s = symbol_views(v@);
    let ghost n = consts(ident_models(ids@), t.model());
    let mut r = v;
    let mut i: usize = 0;
    assert(s + n.take(0) =~= s);
    while i < ids.len()
        invariant
            i <= ids@.len(),
            n == consts(ident_models(ids@), t.model()),
            symbol_views(r@) == s + n.take(i as int),
        decreases ids.len() - i,
    {
        let ghost m = ids@[i as int].model();
        let ghost a = symbol_views(r@);
        r = add_entry(r, ids[i].name.clone(), Entry::Const(t.clone(), None));
        assert(n[i as int] == (m.name, EntryV::Const(t.model(), None)));
        assert(symbol_views(r@) =~= s + n.take(i + 1));
        i += 1;
    }
    assert(n.take(i as int) =~= n);
    r
}

/// Constants of one type.
pub fn list_consts(ids: &Vec<Ident>, t: &SemType) -> (r: Vec<(String, Entry)>)
    ensures
        symbol_views(r@) == consts(ident_models(ids@), t.model()),
{
    let r = append_consts(no_entries(), ids, t);
    assert(SymbolsV::empty() + consts(ident_models(ids@), t.model()) =~= consts(
        ident_models(ids@),
        t.model(),
    ));
    r
}

/// An enumeration and its elements.
pub fn list_scalar(name: &String, ids: &Vec<Ident>, t: SemType, d: Option<TypeDef>) -> (r: Vec<(String, Entry)>)
    ensures
        symbol_views(r@) == seq![(name@, EntryV::Type(t.model(), opt_type_def(d)))] + consts(
            ident_models(ids@),
            t.model(),
        ),
{
    let first = one_entry(name, Entry::Type(t.clone(), d));
    append_consts(first, ids, &t)
}

/// The type given for a type parameter, or a type of its own.
pub open spec fn given_sem(key: Seq<char>, given: Seq<(Seq<char>, BindingV)>, name: Seq<char>) -> ST {
    match binding(given, name) {
        Some(BindingV::Type(s, _t)) => s,
        _ => ST::Uninterp(Tid { ctx: key, name }),
    }
}

/// Type parameters: each the type given for it, or a type of its own.
pub open spec fn type_params(ids: Seq<IdentV>, key: Seq<char>, given: Seq<(Seq<char>, BindingV)>) -> SymbolsV {
    Seq::new(ids.len(), |i: int| (ids[i].name, EntryV::Type(given_sem(key, given, ids[i].name), None)))
}

/// Lists type parameters.
pub fn list_type_params(ids: &Vec<Ident>, key: &String, given: &Vec<(String, Binding)>) -> (r: Vec<
    (String, Entry),
>)
    ensures
        symbol_views(r@) == type_params(ident_models(ids@), key@, binding_views(given@)),
{
    let ghost n = type_params(ident_models(ids@), key@, binding_views(given@));
    let mut r = no_entries();
    let mut i: usize = 0;
    assert(n.take(0) =~= SymbolsV::empty());
    while i < ids.len()
        invariant
            i <= ids@.len(),
            n == type_params(ident_models(ids@), key@, binding_views(given@)),
            symbol_views(r@) == n.take(i as int),
        decreases ids.len() - i,
    {
        let ghost m = ids@[i as int].model();
        assert(ident_models(ids@)[i as int] == m);
        let t = match find_binding(given, &ids[i].name) {
            Some(Binding::Type(s, _t)) => s.clone(),
            _ => SemType::Uninterp(type_id(key, &ids[i].name)),
        };
        r = add_entry(r, ids[i].name.clone(), Entry::Type(t, None));
        assert(n.take(i + 1) =~= n.take(i as int).push(n[i as int]));
        i += 1;
    }
    assert(n.take(i as int) =~= n);
    r
}

/// Names of one type.
pub open spec fn fields_named(ids: Seq<IdentV>, t: ST) -> Seq<(Seq<char>, ST)> {
    Seq::new(ids.len(), |i: int| (ids[i].name, t))
}

/// Appends names of one type.
pub fn append_fields(v: Vec<(String, SemType)>, ids: &Vec<Ident>, t: &SemType) -> (r: Vec<(String, SemType)>)
    ensures
        sem_fields(r@) == sem_fields(v@) + fields_named(ident_models(ids@), t.model()),
{
    let ghost s = sem_fields(v@);
    let ghost n = fields_named(ident_models(ids@), t.model());
    let mut r = v;
    let mut i: usize = 0;
    assert(s + n.take(0) =~= s);
    while i < ids.len()
        invariant
            i <= ids@.len(),
            n == fields_named(ident_models(ids@), t.model()),
            sem_fields(r@) == s + n.take(i as int),
        decreases ids.len() - i,
    {
        let ghost m = ids@[i as int].model();
        let ghost a = r@;
        r.push((ids[i].name.clone(), t.clone()));
        assert(sem_fields(r@) =~= sem_fields(a).push(n[i as int]));
        assert(n.take(i + 1) =~= n.take(i as int).push(n[i as int]));
        assert(sem_fields(r@) =~= s + n.take(i + 1));
        i += 1;
    }
    assert(n.take(i as int) =~= n);
    r
}

/// The types of named types.
pub open spec fn types_of(fs: Seq<(Seq<char>, ST)>) -> Seq<ST> {
    Seq::new(fs.len(), |i: int| fs[i].1)
}

/// The types of named types.
pub fn types_only(fs: &Vec<(String, SemType)>) -> (r: Vec<SemType>)
    ensures
        sem_models(r@) == types_of(sem_fields(fs@)),
{
    let mut r: Vec<SemType> = Vec::new();
    let mut i: usize = 0;
    while i < fs.len()
        invariant
            i <= fs@.len(),
            r@.len() == i,
            forall|j: int| 0 <= j < i ==> (#[trigger] r@[j]).model() == fs@[j].1.model(),
        decreases fs.len() - i,
    {
        r.push(fs[i].1.clone());
        i += 1;
    }
    assert(sem_models(r@) =~= types_of(sem_fields(fs@)));
    r
}

/// The accessors of a constructor, from `i` on.
pub open spec fn accessors(fs: Seq<(Seq<char>, ST)>, s: ST) -> SymbolsV {
    Seq::new(fs.len(), |i: int| (fs[i].0, EntryV::Const(fun_sem(s, fs[i].1), None)))
}

/// What a constructor declares: itself, the test for it, and its accessors.
pub open spec fn constructed(name: Seq<char>, fs: Seq<(Seq<char>, ST)>, s: ST) -> SymbolsV {
    seq![
        (
            name,
            EntryV::Const(
                if fs.len() == 0 {
                    s
                } else {
                    fun_sem(packed(types_of(fs)), s)
                },
                None,
            ),
        ),
        (name + "?"@, EntryV::Const(fun_sem(s, ST::Bool), None)),
    ] + accessors(fs, s)
}

/// Lists what a constructor declares.
pub fn list_constructed(name: &String, fs: &Vec<(String, SemType)>, s: SemType) -> (r: Vec<(String, Entry)>)
    ensures
        symbol_views(r@) == constructed(name@, sem_fields(fs@), s.model()),
{
    let t = if fs.len() == 0 {
        s.clone()
    } else {
        fun_type(pack(types_only(fs)), s.clone())
    };
    let mut r = one_entry(name, Entry::Const(t, None));
    let mut test = name.clone();
    put(&mut test, "?");
    r = add_entry(r, test, Entry::Const(fun_type(s.clone(), SemType::Bool), None));
    let ghost head = symbol_views(r@);
    let ghost n = accessors(sem_fields(fs@), s.model());
    let mut i: usize = 0;
    assert(head + n.take(0) =~= head);
    while i < fs.len()
        invariant
            i <= fs@.len(),
            n == accessors(sem_fields(fs@), s.model()),
            symbol_views(r@) == head + n.take(i as int),
        decreases fs.len() - i,
    {
        assert(sem_fields(fs@)[i as int] == (fs@[i as int].0@, fs@[i as int].1.model()));
        r = add_entry(r, fs[i].0.clone(), Entry::Const(fun_type(s.clone(), fs[i].1.clone()), None));
        assert(symbol_views(r@) =~= head + n.take(i + 1));
        i += 1;
    }
    assert(n.take(i as int) =~= n);
    assert(symbol_views(r@) =~= constructed(name@, sem_fields(fs@), s.model()));
    r
}

/// The new name of a name: that of its last renaming among the first `i`.
pub open spec fn new_name(name: Seq<char>, rs: Seq<(IdentV, IdentV)>, i: int) -> Seq<char>
    decreases i,
{
    if i <= 0 || i > rs.len() {
        name
    } else if rs[i - 1].0.name == name {
        rs[i - 1].1.name
    } else {
        new_name(name, rs, i - 1)
    }
}

/// A symbol table with its names changed.
pub open spec fn renamed(s: SymbolsV, rs: Seq<(IdentV, IdentV)>) -> SymbolsV {
    Seq::new(s.len(), |i: int| (new_name(s[i].0, rs, rs.len() as int), s[i].1))
}

fn find_new_name(name: &String, rs: &Vec<(Ident, Ident)>) -> (r: String)
    ensures
        r@ == new_name(name@, ident_ident_pairs(rs@), rs@.len() as int),
{
    let mut i: usize = rs.len();
    while i > 0
        invariant
            i <= rs@.len(),
            new_name(name@, ident_ident_pairs(rs@), rs@.len() as int) == new_name(
                name@,
                ident_ident_pairs(rs@),
                i as int,
            ),
        decreases i,
    {
        let ghost a = rs@[i - 1].0.model();
        let ghost b = rs@[i - 1].1.model();
        assert(ident_ident_pairs(rs@)[i - 1] == (a, b));
        if rs[i - 1].0.name == *name {
            return rs[i - 1].1.name.clone();
        }
        i -= 1;
    }
    name.clone()
}

/// Lists a symbol table with its names changed.
pub fn list_renamed(v: &Vec<(String, Entry)>, rs: &Vec<(Ident, Ident)>) -> (r: Vec<(String, Entry)>)
    ensures
        symbol_views(r@) == renamed(symbol_views(v@), ident_ident_pairs(rs@)),
{
    let ghost n = renamed(symbol_views(v@), ident_ident_pairs(rs@));
    let mut r = no_entries();
    let mut i: usize = 0;
    assert(n.take(0) =~= SymbolsV::empty());
    while i < v.len()
        invariant
            i <= v@.len(),
            n == renamed(symbol_views(v@), ident_ident_pairs(rs@)),
            symbol_views(r@) == n.take(i as int),
        decreases v.len() - i,
    {
        assert(symbol_views(v@)[i as int] == (v@[i as int].0@, v@[i as int].1.model()));
        r = add_entry(r, find_new_name(&v[i].0, rs), v[i].1.clone());
        assert(n.take(i + 1) =~= n.take(i as int).push(n[i as int]));
        i += 1;
    }
    assert(n.take(i as int) =~= n);
    r
}

/// Three texts as one.
pub fn text3(a: &str, b: &str, c: &str) -> (r: String)
    ensures
        r@ == a@ + b@ + c@,
{
    let mut out = own(a);
    put(&mut out, b);
    put(&mut out, c);
    out
}

/// Five texts as one.
pub fn text5(a: &str, b: &str, c: &str, d: &str, e: &str) -> (r: String)
    ensures
        r@ == a@ + b@ + c@ + d@ + e@,
{
    let mut out = text3(a, b, c);
    put(&mut out, d);
    put(&mut out, e);
    out
}

/// The message that a module is given the wrong number of parameters.
pub open spec fn count_text(name: Seq<char>, want: int, got: int) -> Seq<char> {
    "Wrong number of module actuals for \""@ + name + "\": expected "@ + dec(want) + ", found "@ + dec(got)
        + "."@
}

/// The message that a module is given the wrong number of parameters.
pub fn count_message(name: &str, want: usize, got: usize) -> (r: String)
    ensures
        r@ == count_text(name@, want as int, got as int),
{
    let mut out = text3("Wrong number of module actuals for \"", name, "\": expected ");
    put(&mut out, Int::from_u64(want as u64).text().as_str());
    put(&mut out, ", found ");
    put(&mut out, Int::from_u64(got as u64).text().as_str());
    put(&mut out, ".");
    out
}

} // verus!
