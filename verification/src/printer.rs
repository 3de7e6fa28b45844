//! From syntax to text.
//!
//! Parentheses that stand in the source are kept; those that the structure needs are added.

use crate::ast::{
    access_models, actual_models, base_decl_models, constructor_models, ctx_param_models, decl_models,
    def_or_command_models, definition_models, expr_models, field_decl_models, ident_expr_pairs, ident_ident_pairs,
    ident_models, let_decl_models, lhs_lhs_pairs, new_var_decl_models, op_name, some_command_models, type_models,
    var_decl_models, Access, AccessV, Actual, ActualV, AssertionExpr, AssertionExprV, AssertionForm, BaseDecl,
    BaseDeclV, BaseModule, BaseModuleV, BinOp, Constructor, ConstructorV, ContextName, ContextNameV, CtxParam,
    CtxParamV, Decl, DeclV, DefOrCommand, DefOrCommandV, Definition, DefinitionV, Expr, ExprKind, ExprKindV, ExprV,
    FieldDecl, FieldDeclV, GuardedCommand, GuardedCommandV, Ident, IdentV, LetDecl, LetDeclV, Lhs, LhsV, Module,
    ModuleKind, ModuleKindV, ModuleV, Name, NameV, NewVarDecl, NewVarDeclV, Quantifier, Rhs, RhsV, SalContext,
    SalContextV, SetPred, SetPredV, SomeCommand, SomeCommandV, Type, TypeDef, TypeDefV, TypeKind, TypeKindV, TypeV,
    UnOp, VarClass, VarDecl, VarDeclV,
};
use crate::lexer::characters;
use crate::num::{dec, Int};
use crate::parser::{opt_expr, opt_ident};
use crate::text::{own, put};
use vstd::prelude::*;

verus! {

/// A character several times.
pub open spec fn repeated(c: char, n: nat) -> Seq<char> {
    Seq::new(n, |i: int| c)
}

/// The beginning of a line.
pub open spec fn newline(n: usize) -> Seq<char> {
    "\n"@ + repeated(' ', (2 * n) as nat)
}

/// One level deeper.
pub open spec fn deeper(n: usize) -> usize {
    if n < usize::MAX {
        (n + 1) as usize
    } else {
        n
    }
}

/// One level deeper.
#[verifier::when_used_as_spec(deeper)]
fn deepen(n: usize) -> (r: usize)
    ensures
        r == deeper(n),
{
    if n < usize::MAX {
        n + 1
    } else {
        n
    }
}

/// What stands between commands.
pub open spec fn command_sep(n: usize) -> Seq<char> {
    newline(deeper(n)) + "[] "@
}

/// The name of the first identifier.
pub open spec fn first_name(v: Seq<IdentV>) -> Seq<char> {
    if v.len() > 0 {
        v[0].name
    } else {
        Seq::empty()
    }
}

/// How strongly an operator binds.
pub open spec fn prec_of(op: BinOp) -> u8 {
    match op {
        BinOp::Mult | BinOp::Div | BinOp::IDiv | BinOp::Mod => 80,
        BinOp::Plus | BinOp::Minus => 70,
        BinOp::Eq | BinOp::Neq | BinOp::Lt | BinOp::Le | BinOp::Gt | BinOp::Ge => 55,
        BinOp::And => 45,
        BinOp::Or => 40,
        BinOp::Xor => 35,
        BinOp::Implies => 30,
        BinOp::Iff => 25,
    }
}

/// How strongly an operator binds.
#[verifier::when_used_as_spec(prec_of)]
fn binds(op: BinOp) -> (r: u8)
    ensures
        r == prec_of(op),
{
    match op {
        BinOp::Mult | BinOp::Div | BinOp::IDiv | BinOp::Mod => 80,
        BinOp::Plus | BinOp::Minus => 70,
        BinOp::Eq | BinOp::Neq | BinOp::Lt | BinOp::Le | BinOp::Gt | BinOp::Ge => 55,
        BinOp::And => 45,
        BinOp::Or => 40,
        BinOp::Xor => 35,
        BinOp::Implies => 30,
        BinOp::Iff => 25,
    }
}

/// How strongly the outermost operator of an expression binds, if it has one, and whether it is
/// right-associative.
pub open spec fn binding(k: ExprKindV) -> Option<(u8, bool)> {
    match k {
        ExprKindV::Binary(op, _, _) => Some((prec_of(op), op == BinOp::Implies)),
        ExprKindV::Unary(UnOp::Not, _) => Some((50, false)),
        ExprKindV::Unary(UnOp::Minus, _) => Some((85, false)),
        ExprKindV::Update { target, accesses, value } => Some((60, false)),
        ExprKindV::Lambda(_, _) => Some((0, false)),
        ExprKindV::Quantified(_, _, _) => Some((0, false)),
        ExprKindV::Let(_, _) => Some((0, false)),
        _ => None,
    }
}

/// The expression needs parentheses as an operand of an operator that binds as strongly as `min`.
pub open spec fn needs(e: ExprV, min: u8, rhs: bool) -> bool {
    e.parens == 0 && match binding(e.kind) {
        Some((bp, right)) => bp < min || (bp == min && right != rhs),
        None => false,
    }
}

/// How strongly a composition of modules binds, if it is one.
pub open spec fn module_binding(k: ModuleKindV) -> Option<u8> {
    match k {
        ModuleKindV::Async(_, _) => Some(1),
        ModuleKindV::Sync(_, _) => Some(2),
        ModuleKindV::Hide(_, _) => Some(0),
        ModuleKindV::NewOutput(_, _) => Some(0),
        ModuleKindV::Rename(_, _) => Some(0),
        ModuleKindV::With(_, _) => Some(0),
        ModuleKindV::Observe(_, _) => Some(0),
        _ => None,
    }
}

/// The module needs parentheses as an operand.
pub open spec fn module_needs(m: ModuleV, min: u8, rhs: bool) -> bool {
    m.parens == 0 && match module_binding(m.kind) {
        Some(bp) => bp < min || (bp == min && rhs),
        None => false,
    }
}

/// The printed form of a number with a fraction.
pub open spec fn float_text(numer: Seq<char>, denom: Seq<char>) -> Seq<char> {
    let d = if denom.len() > 0 {
        denom.len() - 1
    } else {
        0
    };
    let k = if d <= numer.len() {
        numer.len() - d
    } else {
        0
    };
    (if k == 0 {
        "0"@
    } else {
        numer.take(k)
    }) + "."@ + numer.skip(k)
}

/// The keyword of a class of variables.
pub open spec fn class_text(c: VarClass) -> Seq<char> {
    match c {
        VarClass::Input => "INPUT "@,
        VarClass::Output => "OUTPUT "@,
        VarClass::Global => "GLOBAL "@,
        VarClass::Local => "LOCAL "@,
    }
}

fn class_name(c: VarClass) -> (r: &'static str)
    ensures
        r@ == class_text(c),
{
    match c {
        VarClass::Input => "INPUT ",
        VarClass::Output => "OUTPUT ",
        VarClass::Global => "GLOBAL ",
        VarClass::Local => "LOCAL ",
    }
}

/// The keyword of a form of assertion.
pub open spec fn form_text(f: AssertionForm) -> Seq<char> {
    match f {
        AssertionForm::Obligation => " : OBLIGATION "@,
        AssertionForm::Claim => " : CLAIM "@,
        AssertionForm::Lemma => " : LEMMA "@,
        AssertionForm::Theorem => " : THEOREM "@,
    }
}

fn form_name(f: AssertionForm) -> (r: &'static str)
    ensures
        r@ == form_text(f),
{
    match f {
        AssertionForm::Obligation => " : OBLIGATION ",
        AssertionForm::Claim => " : CLAIM ",
        AssertionForm::Lemma => " : LEMMA ",
        AssertionForm::Theorem => " : THEOREM ",
    }
}

fn name_of_first(v: &Vec<Ident>) -> (r: String)
    ensures
        r@ == first_name(ident_models(v@)),
{
    if v.len() > 0 {
        assert(ident_models(v@)[0] == v@[0].model());
        v[0].name.clone()
    } else {
        let r = String::new();
        assert(r@ =~= Seq::<char>::empty());
        r
    }
}

fn put_chars(out: &mut String, cs: &Vec<char>, a: usize, b: usize)
    requires
        a <= b <= cs@.len(),
    ensures
        final(out)@ == old(out)@ + cs@.subrange(a as int, b as int),
{
    let ghost o = out@;
    let mut i: usize = a;
    assert(out@ =~= o + cs@.subrange(a as int, a as int));
    while i < b
        invariant
            a <= i <= b <= cs@.len(),
            out@ == o + cs@.subrange(a as int, i as int),
        decreases b - i,
    {
        out.push(cs[i]);
        i += 1;
        assert(out@ =~= o + cs@.subrange(a as int, i as int));
    }
}

fn print_float(numer: &String, denom: &String) -> (r: String)
    ensures
        r@ == float_text(numer@, denom@),
{
    let a = characters(numer.as_str());
    let b = characters(denom.as_str());
    let d: usize = if b.len() > 0 {
        b.len() - 1
    } else {
        0
    };
    let k: usize = if d <= a.len() {
        a.len() - d
    } else {
        0
    };
    let mut out = String::new();
    if k == 0 {
        put(&mut out, "0");
        assert(out@ =~= "0"@);
    } else {
        put_chars(&mut out, &a, 0, k);
        assert(out@ =~= numer@.take(k as int));
    }
    put(&mut out, ".");
    let len: usize = a.len();
    put_chars(&mut out, &a, k, len);
    assert(a@.subrange(k as int, len as int) =~= numer@.skip(k as int));
    out
}

fn sep_text(n: usize) -> (r: String)
    ensures
        r@ == command_sep(n),
{
    let mut p = Printer { out: String::new() };
    p.nl(deepen(n));
    put(&mut p.out, "[] ");
    assert(p.out@ =~= command_sep(n));
    p.out
}

/// What is printed after a text for an expression, a type, a module, a definition and a command, and for
/// what follows the first branch of a conditional, each on a level of indentation.
pub ghost struct Shown {
    pub expr: spec_fn(Seq<char>, ExprV, usize) -> Seq<char>,
    pub ty: spec_fn(Seq<char>, TypeV, usize) -> Seq<char>,
    pub module: spec_fn(Seq<char>, ModuleV, usize) -> Seq<char>,
    pub def: spec_fn(Seq<char>, DefinitionV, usize) -> Seq<char>,
    pub cmd: spec_fn(Seq<char>, SomeCommandV, usize) -> Seq<char>,
    pub tail: spec_fn(Seq<char>, ExprV, usize) -> Seq<char>,
}

/// The texts of syntax that is nested up to `k` deep. What is nested deeper is left out.
#[verifier::opaque]
pub open spec fn shown(k: nat) -> Shown
    decreases k,
{
    if k == 0 {
        Shown {
            expr: |out: Seq<char>, x: ExprV, n: usize| out,
            ty: |out: Seq<char>, x: TypeV, n: usize| out,
            module: |out: Seq<char>, x: ModuleV, n: usize| out,
            def: |out: Seq<char>, x: DefinitionV, n: usize| out,
            cmd: |out: Seq<char>, x: SomeCommandV, n: usize| out,
            tail: |out: Seq<char>, x: ExprV, n: usize| out,
        }
    } else {
        let g = shown((k - 1) as nat);
        Shown {
            expr: |out: Seq<char>, x: ExprV, n: usize| w_expr(out, x, n, g),
            ty: |out: Seq<char>, x: TypeV, n: usize| w_ty(out, x, n, g),
            module: |out: Seq<char>, x: ModuleV, n: usize| w_module(out, x, n, g),
            def: |out: Seq<char>, x: DefinitionV, n: usize| w_definition(out, x, n, g),
            cmd: |out: Seq<char>, x: SomeCommandV, n: usize| w_command(out, x, n, g),
            tail: |out: Seq<char>, x: ExprV, n: usize| w_tail(out, x, n, g),
        }
    }
}

pub proof fn shown_rules(k: nat)
    ensures
        k == 0 ==> forall|out: Seq<char>, x: ExprV, n: usize| #[trigger] (shown(k).expr)(out, x, n) == out,
        k == 0 ==> forall|out: Seq<char>, x: TypeV, n: usize| #[trigger] (shown(k).ty)(out, x, n) == out,
        k == 0 ==> forall|out: Seq<char>, x: ModuleV, n: usize| #[trigger] (shown(k).module)(out, x, n) == out,
        k == 0 ==> forall|out: Seq<char>, x: DefinitionV, n: usize| #[trigger] (shown(k).def)(out, x, n) == out,
        k == 0 ==> forall|out: Seq<char>, x: SomeCommandV, n: usize| #[trigger] (shown(k).cmd)(out, x, n) == out,
        k == 0 ==> forall|out: Seq<char>, x: ExprV, n: usize| #[trigger] (shown(k).tail)(out, x, n) == out,
        k > 0 ==> forall|out: Seq<char>, x: ExprV, n: usize| #[trigger]
            (shown(k).expr)(out, x, n) == w_expr(out, x, n, shown((k - 1) as nat)),
        k > 0 ==> forall|out: Seq<char>, x: TypeV, n: usize| #[trigger] (shown(k).ty)(out, x, n) == w_ty(
            out,
            x,
            n,
            shown((k - 1) as nat)
        ),
        k > 0 ==> forall|out: Seq<char>, x: ModuleV, n: usize| #[trigger]
            (shown(k).module)(out, x, n) == w_module(out, x, n, shown((k - 1) as nat)),
        k > 0 ==> forall|out: Seq<char>, x: DefinitionV, n: usize| #[trigger]
            (shown(k).def)(out, x, n) == w_definition(out, x, n, shown((k - 1) as nat)),
        k > 0 ==> forall|out: Seq<char>, x: SomeCommandV, n: usize| #[trigger]
            (shown(k).cmd)(out, x, n) == w_command(out, x, n, shown((k - 1) as nat)),
        k > 0 ==> forall|out: Seq<char>, x: ExprV, n: usize| #[trigger]
            (shown(k).tail)(out, x, n) == w_tail(out, x, n, shown((k - 1) as nat)),
{
    reveal_with_fuel(shown, 1);
}

/// An operand of an operator that binds as strongly as `min`.
#[verifier::opaque]
pub open spec fn w_prec(out: Seq<char>, x: ExprV, min: u8, rhs: bool, n: usize, g: Shown) -> Seq<char> {
    if needs(x, min, rhs) {
        (g.expr)(out + "("@, x, n) + ")"@
    } else {
        (g.expr)(out, x, n)
    }
}

/// An operand of a composition.
#[verifier::opaque]
pub open spec fn w_mprec(out: Seq<char>, x: ModuleV, min: u8, rhs: bool, n: usize, g: Shown) -> Seq<char> {
    if module_needs(x, min, rhs) {
        (g.module)(out + "("@, x, n) + ")"@
    } else {
        (g.module)(out, x, n)
    }
}

/// What follows the first branch of a conditional.
#[verifier::opaque]
pub open spec fn w_tail(out: Seq<char>, x: ExprV, n: usize, g: Shown) -> Seq<char> {
    match x.kind {
        ExprKindV::Conditional { cond, then_, els, is_elsif } => if is_elsif && x.parens == 0 {
            let out = (g.expr)(out + " ELSIF "@, *cond, n);
            let out = (g.expr)(out + " THEN "@, *then_, n);
            (g.tail)(out, *els, n)
        } else {
            (g.expr)(out + " ELSE "@, x, n)
        },
        _ => (g.expr)(out + " ELSE "@, x, n),
    }
}

/// The label of a command.
#[verifier::opaque]
pub open spec fn w_label(out: Seq<char>, x: Option<IdentV>, n: usize, g: Shown) -> Seq<char> {
    match x {
        Some(l) => out + l.name + ": "@,
        None => out,
    }
}

/// The guard of a command.
#[verifier::opaque]
pub open spec fn w_guard(out: Seq<char>, x: Option<ExprV>, n: usize, g: Shown) -> Seq<char> {
    match x {
        Some(e) => (g.expr)(out, e, n),
        None => out + "ELSE"@,
    }
}

/// The names from `i` on, each but the first with `sep` before it.
#[verifier::opaque]
pub open spec fn w_names(out: Seq<char>, v: Seq<IdentV>, sep: Seq<char>, i: int) -> Seq<char>
    decreases v.len() - i,
{
    if i < 0 || i >= v.len() {
        out
    } else {
        w_names(
            (if i > 0 {
                out + sep
            } else {
                out
            }) + v[i].name,
            v,
            sep,
            i + 1,
        )
    }
}

/// A context with actual parameters.
#[verifier::opaque]
pub open spec fn w_ctx(out: Seq<char>, x: ContextNameV, n: usize, g: Shown) -> Seq<char> {
    let out = out + x.name.name;
    let out = if x.actuals.len() > 0 {
        let out = out + "{"@;
        let out = w_actuals(out, x.actuals, ", "@, n, g, 0);
        let out = out + "}"@;
        out
    } else {
        out
    };
    out
}

/// An actual parameter.
#[verifier::opaque]
pub open spec fn w_actual(out: Seq<char>, x: ActualV, n: usize, g: Shown) -> Seq<char> {
    match x {
        ActualV::Expr(e) => {
            let out = (g.expr)(out, e, n);
            out
        },
        ActualV::Type(t) => {
            let out = (g.ty)(out, t, n);
            out
        },
    }
}

/// A name.
#[verifier::opaque]
pub open spec fn w_name(out: Seq<char>, x: NameV, n: usize, g: Shown) -> Seq<char> {
    let out = match x.ctx {
        Some(c) => {
            let out = w_ctx(out, c, n, g);
            let out = out + "!"@;
            out
        },
        None => {
            out
        },
    };
    let out = out + x.id.name;
    out
}

/// A type.
#[verifier::opaque]
pub open spec fn w_ty(out: Seq<char>, x: TypeV, n: usize, g: Shown) -> Seq<char> {
    let out = w_type_kind(out, x.kind, n, g);
    out
}

/// A type.
#[verifier::opaque]
pub open spec fn w_type_kind(out: Seq<char>, x: TypeKindV, n: usize, g: Shown) -> Seq<char> {
    match x {
        TypeKindV::Name(a) => {
            let out = w_name(out, a, n, g);
            out
        },
        TypeKindV::Subrange(a, b) => {
            let out = out + "["@;
            let out = (g.expr)(out, *a, n);
            let out = out + " .. "@;
            let out = (g.expr)(out, *b, n);
            let out = out + "]"@;
            out
        },
        TypeKindV::Subtype(a) => {
            let out = w_set_pred(out, *a, n, g);
            out
        },
        TypeKindV::Array(a, b) => {
            let out = out + "ARRAY "@;
            let out = (g.ty)(out, *a, n);
            let out = out + " OF "@;
            let out = (g.ty)(out, *b, n);
            out
        },
        TypeKindV::Tuple(a) => {
            let out = out + "["@;
            let out = w_tys(out, a, ", "@, n, g, 0);
            let out = out + "]"@;
            out
        },
        TypeKindV::Function(a, b) => {
            let out = out + "["@;
            let out = (g.ty)(out, *a, n);
            let out = out + " -> "@;
            let out = (g.ty)(out, *b, n);
            let out = out + "]"@;
            out
        },
        TypeKindV::Record(a) => {
            let out = out + "[# "@;
            let out = w_fields(out, a, ", "@, n, g, 0);
            let out = out + " #]"@;
            out
        },
        TypeKindV::State(a) => {
            let out = out + "STATE_TYPE("@;
            let out = (g.module)(out, *a, n);
            let out = out + ")"@;
            out
        },
    }
}

/// A field of a record type.
#[verifier::opaque]
pub open spec fn w_field(out: Seq<char>, x: FieldDeclV, n: usize, g: Shown) -> Seq<char> {
    let out = out + x.name.name;
    let out = out + ": "@;
    let out = (g.ty)(out, x.ty, n);
    out
}

/// A set by its predicate.
#[verifier::opaque]
pub open spec fn w_set_pred(out: Seq<char>, x: SetPredV, n: usize, g: Shown) -> Seq<char> {
    let out = out + "{"@;
    let out = out + x.var.name;
    let out = out + " : "@;
    let out = (g.ty)(out, x.ty, n);
    let out = out + " | "@;
    let out = (g.expr)(out, x.pred, n);
    let out = out + "}"@;
    out
}

/// Variables of one type.
#[verifier::opaque]
pub open spec fn w_var_decl(out: Seq<char>, x: VarDeclV, n: usize, g: Shown) -> Seq<char> {
    let out = w_names(out, x.names, ", "@, 0);
    let out = out + " : "@;
    let out = (g.ty)(out, x.ty, n);
    out
}

/// An expression in its parentheses.
#[verifier::opaque]
pub open spec fn w_expr(out: Seq<char>, x: ExprV, n: usize, g: Shown) -> Seq<char> {
    let out = out + repeated('(', x.parens as nat);
    let out = w_expr_kind(out, x.kind, n, g);
    let out = out + repeated(')', x.parens as nat);
    out
}

/// An expression.
#[verifier::opaque]
pub open spec fn w_expr_kind(out: Seq<char>, x: ExprKindV, n: usize, g: Shown) -> Seq<char> {
    match x {
        ExprKindV::Name(a) => {
            let out = w_name(out, a, n, g);
            out
        },
        ExprKindV::Next(a) => {
            let out = out + a.name;
            let out = out + "'"@;
            out
        },
        ExprKindV::Numeral(a) => {
            let out = out + a;
            out
        },
        ExprKindV::Float { numer, denom } => {
            let out = out + float_text(numer, denom);
            out
        },
        ExprKindV::Str(a) => {
            let out = out + "\""@;
            let out = out + a;
            let out = out + "\""@;
            out
        },
        ExprKindV::Binary(o, a, b) => {
            let out = w_prec(out, *a, prec_of(o), false, n, g);
            let out = out + " "@;
            let out = out + op_name(o);
            let out = out + " "@;
            let out = w_prec(out, *b, prec_of(o), true, n, g);
            out
        },
        ExprKindV::Unary(o, a) => {
            let out = if o == UnOp::Not {
                let out = out + "NOT "@;
                let out = w_prec(out, *a, 50, true, n, g);
                out
            } else {
                let out = out + "-"@;
                let out = w_prec(out, *a, 85, true, n, g);
                out
            };
            out
        },
        ExprKindV::App(a, b) => {
            let out = w_prec(out, *a, 100, false, n, g);
            let out = out + "("@;
            let out = w_exprs(out, b, ", "@, n, g, 0);
            let out = out + ")"@;
            out
        },
        ExprKindV::ArraySelect(a, b) => {
            let out = w_prec(out, *a, 100, false, n, g);
            let out = out + "["@;
            let out = (g.expr)(out, *b, n);
            let out = out + "]"@;
            out
        },
        ExprKindV::RecordSelect(a, b) => {
            let out = w_prec(out, *a, 100, false, n, g);
            let out = out + "."@;
            let out = out + b.name;
            out
        },
        ExprKindV::TupleSelect(a, b) => {
            let out = w_prec(out, *a, 100, false, n, g);
            let out = out + "."@;
            let out = out + dec(b as int);
            out
        },
        ExprKindV::Update { target, accesses, value } => {
            let out = w_prec(out, *target, 60, false, n, g);
            let out = out + " WITH "@;
            let out = w_accesss(out, accesses, ""@, n, g, 0);
            let out = out + " := "@;
            let out = w_prec(out, *value, 61, true, n, g);
            out
        },
        ExprKindV::Lambda(a, b) => {
            let out = out + "LAMBDA ("@;
            let out = w_var_decls(out, a, ", "@, n, g, 0);
            let out = out + "): "@;
            let out = (g.expr)(out, *b, n);
            out
        },
        ExprKindV::Quantified(q, a, b) => {
            let out = if q == Quantifier::Forall {
                let out = out + "FORALL ("@;
                out
            } else {
                let out = out + "EXISTS ("@;
                out
            };
            let out = w_var_decls(out, a, ", "@, n, g, 0);
            let out = out + "): "@;
            let out = (g.expr)(out, *b, n);
            out
        },
        ExprKindV::Let(a, b) => {
            let out = out + "LET "@;
            let out = w_let_decls(out, a, ", "@, n, g, 0);
            let out = out + " IN "@;
            let out = (g.expr)(out, *b, n);
            out
        },
        ExprKindV::SetPred(a) => {
            let out = w_set_pred(out, *a, n, g);
            out
        },
        ExprKindV::SetList(a) => {
            let out = out + "{"@;
            let out = w_exprs(out, a, ", "@, n, g, 0);
            let out = out + "}"@;
            out
        },
        ExprKindV::ArrayLit(a, b) => {
            let out = out + "[["@;
            let out = out + first_name(a.names);
            let out = out + " : "@;
            let out = (g.ty)(out, a.ty, n);
            let out = out + "] "@;
            let out = (g.expr)(out, *b, n);
            let out = out + "]"@;
            out
        },
        ExprKindV::RecordLit(a) => {
            let out = out + "(# "@;
            let out = w_entrys(out, a, ", "@, n, g, 0);
            let out = out + " #)"@;
            out
        },
        ExprKindV::TupleLit(a) => {
            let out = out + "("@;
            let out = w_exprs(out, a, ", "@, n, g, 0);
            let out = out + ")"@;
            out
        },
        ExprKindV::Conditional { cond, then_, els, is_elsif } => {
            let out = out + "IF "@;
            let out = (g.expr)(out, *cond, n);
            let out = out + " THEN "@;
            let out = (g.expr)(out, *then_, n);
            let out = (g.tail)(out, *els, n);
            let out = out + " ENDIF"@;
            out
        },
        ExprKindV::ModInit(a) => {
            let out = out + "INIT_PRED("@;
            let out = (g.module)(out, *a, n);
            let out = out + ")"@;
            out
        },
        ExprKindV::ModTrans(a) => {
            let out = out + "TRANS_PRED("@;
            let out = (g.module)(out, *a, n);
            let out = out + ")"@;
            out
        },
        ExprKindV::Unbounded => {
            let out = out + "_"@;
            out
        },
    }
}

/// A local declaration.
#[verifier::opaque]
pub open spec fn w_let_decl(out: Seq<char>, x: LetDeclV, n: usize, g: Shown) -> Seq<char> {
    let out = out + x.name.name;
    let out = out + " : "@;
    let out = (g.ty)(out, x.ty, n);
    let out = out + " = "@;
    let out = (g.expr)(out, x.value, n);
    out
}

/// A step of an access path.
#[verifier::opaque]
pub open spec fn w_access(out: Seq<char>, x: AccessV, n: usize, g: Shown) -> Seq<char> {
    match x {
        AccessV::Array(a) => {
            let out = out + "["@;
            let out = (g.expr)(out, a, n);
            let out = out + "]"@;
            out
        },
        AccessV::Record(a) => {
            let out = out + "."@;
            let out = out + a.name;
            out
        },
        AccessV::Tuple(a) => {
            let out = out + "."@;
            let out = out + dec(a as int);
            out
        },
        AccessV::Args(a) => {
            let out = out + "("@;
            let out = w_exprs(out, a, ", "@, n, g, 0);
            let out = out + ")"@;
            out
        },
    }
}

/// A module in its parentheses.
#[verifier::opaque]
pub open spec fn w_module(out: Seq<char>, x: ModuleV, n: usize, g: Shown) -> Seq<char> {
    let out = out + repeated('(', x.parens as nat);
    let out = w_module_kind(out, x.kind, n, g);
    let out = out + repeated(')', x.parens as nat);
    out
}

/// A module.
#[verifier::opaque]
pub open spec fn w_module_kind(out: Seq<char>, x: ModuleKindV, n: usize, g: Shown) -> Seq<char> {
    match x {
        ModuleKindV::Instance(a, b) => {
            let out = w_name(out, a, n, g);
            let out = if b.len() > 0 {
                let out = out + "["@;
                let out = w_exprs(out, b, ", "@, n, g, 0);
                let out = out + "]"@;
                out
            } else {
                out
            };
            out
        },
        ModuleKindV::Sync(a, b) => {
            let out = w_mprec(out, *a, 2, false, n, g);
            let out = out + " || "@;
            let out = w_mprec(out, *b, 2, true, n, g);
            out
        },
        ModuleKindV::Async(a, b) => {
            let out = w_mprec(out, *a, 1, false, n, g);
            let out = out + " [] "@;
            let out = w_mprec(out, *b, 1, true, n, g);
            out
        },
        ModuleKindV::MultiSync(a, b) => {
            let out = out + "(|| ("@;
            let out = out + first_name(a.names);
            let out = out + " : "@;
            let out = (g.ty)(out, a.ty, n);
            let out = out + "): "@;
            let out = (g.module)(out, *b, n);
            let out = out + ")"@;
            out
        },
        ModuleKindV::MultiAsync(a, b) => {
            let out = out + "([] ("@;
            let out = out + first_name(a.names);
            let out = out + " : "@;
            let out = (g.ty)(out, a.ty, n);
            let out = out + "): "@;
            let out = (g.module)(out, *b, n);
            let out = out + ")"@;
            out
        },
        ModuleKindV::Hide(a, b) => {
            let out = out + "LOCAL "@;
            let out = w_names(out, a, ", "@, 0);
            let out = out + " IN "@;
            let out = (g.module)(out, *b, n);
            out
        },
        ModuleKindV::NewOutput(a, b) => {
            let out = out + "OUTPUT "@;
            let out = w_names(out, a, ", "@, 0);
            let out = out + " IN "@;
            let out = (g.module)(out, *b, n);
            out
        },
        ModuleKindV::Rename(a, b) => {
            let out = out + "RENAME "@;
            let out = w_renames(out, a, ", "@, n, g, 0);
            let out = out + " IN "@;
            let out = (g.module)(out, *b, n);
            out
        },
        ModuleKindV::With(a, b) => {
            let out = out + "WITH "@;
            let out = w_new_vars(out, a, "; "@, n, g, 0);
            let out = out + " "@;
            let out = (g.module)(out, *b, n);
            out
        },
        ModuleKindV::Observe(a, b) => {
            let out = out + "OBSERVE "@;
            let out = w_mprec(out, *a, 1, false, n, g);
            let out = out + " WITH "@;
            let out = (g.module)(out, *b, n);
            out
        },
        ModuleKindV::Base(a) => {
            let out = w_base(out, a, n, g);
            out
        },
    }
}

/// Added variables.
#[verifier::opaque]
pub open spec fn w_new_var(out: Seq<char>, x: NewVarDeclV, n: usize, g: Shown) -> Seq<char> {
    let out = out + class_text(x.class);
    let out = w_var_decls(out, x.decls, ", "@, n, g, 0);
    out
}

/// The left side of a definition.
#[verifier::opaque]
pub open spec fn w_lhs(out: Seq<char>, x: LhsV, n: usize, g: Shown) -> Seq<char> {
    let out = out + x.base.name;
    let out = if x.next {
        let out = out + "'"@;
        out
    } else {
        out
    };
    let out = w_accesss(out, x.accesses, ""@, n, g, 0);
    out
}

/// A base module.
#[verifier::opaque]
pub open spec fn w_base(out: Seq<char>, x: BaseModuleV, n: usize, g: Shown) -> Seq<char> {
    let out = out + "BEGIN"@;
    let out = w_sections(out, x.decls, ""@, deeper(n), g, 0);
    let out = out + newline(n);
    let out = out + "END"@;
    out
}

/// A section of a base module, on a line of its own.
#[verifier::opaque]
pub open spec fn w_section(out: Seq<char>, x: BaseDeclV, n: usize, g: Shown) -> Seq<char> {
    match x {
        BaseDeclV::Vars(c, a) => {
            let out = out + newline(n);
            let out = out + class_text(c);
            let out = w_var_decls(out, a, ", "@, n, g, 0);
            out
        },
        BaseDeclV::Definition(a) => {
            let out = out + newline(n);
            let out = out + "DEFINITION"@;
            let out = w_def_lines(out, a, ";"@, deeper(n), g, 0);
            out
        },
        BaseDeclV::Initialization(a) => {
            let out = out + newline(n);
            let out = out + "INITIALIZATION"@;
            let out = w_items(out, a, ";"@, deeper(n), g, 0);
            out
        },
        BaseDeclV::Transition(a) => {
            let out = out + newline(n);
            let out = out + "TRANSITION"@;
            let out = w_items(out, a, ";"@, deeper(n), g, 0);
            out
        },
    }
}

/// A definition, on a line of its own.
#[verifier::opaque]
pub open spec fn w_def_line(out: Seq<char>, x: DefinitionV, n: usize, g: Shown) -> Seq<char> {
    let out = out + newline(n);
    let out = (g.def)(out, x, n);
    out
}

/// A definition or a choice of commands, on a line of its own.
#[verifier::opaque]
pub open spec fn w_item(out: Seq<char>, x: DefOrCommandV, n: usize, g: Shown) -> Seq<char> {
    match x {
        DefOrCommandV::Def(a) => {
            let out = out + newline(n);
            let out = (g.def)(out, a, n);
            out
        },
        DefOrCommandV::Commands(a, s) => {
            let out = out + newline(n);
            let out = out + "["@;
            let out = if a.len() > 0 {
                let out = out + newline(deeper(n));
                out
            } else {
                out
            };
            let out = w_commands(out, a, command_sep(n), deeper(n), g, 0);
            let out = out + newline(n);
            let out = out + "]"@;
            out
        },
    }
}

/// A definition.
#[verifier::opaque]
pub open spec fn w_definition(out: Seq<char>, x: DefinitionV, n: usize, g: Shown) -> Seq<char> {
    match x {
        DefinitionV::Simple(a) => {
            let out = w_lhs(out, a.lhs, n, g);
            let out = w_rhs(out, a.rhs, n, g);
            out
        },
        DefinitionV::Forall(a, b) => {
            let out = out + "(FORALL ("@;
            let out = w_var_decls(out, a, ", "@, n, g, 0);
            let out = out + "): "@;
            let out = w_definitions(out, b, "; "@, n, g, 0);
            let out = out + ")"@;
            out
        },
    }
}

/// The right side of a definition.
#[verifier::opaque]
pub open spec fn w_rhs(out: Seq<char>, x: RhsV, n: usize, g: Shown) -> Seq<char> {
    match x {
        RhsV::Expr(a) => {
            let out = out + " = "@;
            let out = (g.expr)(out, a, n);
            out
        },
        RhsV::Selection(a) => {
            let out = out + " IN "@;
            let out = (g.expr)(out, a, n);
            out
        },
    }
}

/// A guarded command.
#[verifier::opaque]
pub open spec fn w_guarded(out: Seq<char>, x: GuardedCommandV, n: usize, g: Shown) -> Seq<char> {
    let out = w_label(out, x.label, n, g);
    let out = w_guard(out, x.guard, n, g);
    let out = out + " -->"@;
    let out = if x.assignments.len() > 0 {
        let out = out + " "@;
        let out = w_definitions(out, x.assignments, "; "@, n, g, 0);
        out
    } else {
        out
    };
    out
}

/// A command.
#[verifier::opaque]
pub open spec fn w_command(out: Seq<char>, x: SomeCommandV, n: usize, g: Shown) -> Seq<char> {
    match x {
        SomeCommandV::Guarded(a) => {
            let out = w_guarded(out, a, n, g);
            out
        },
        SomeCommandV::Multi(a, b, s) => {
            let out = out + "([] ("@;
            let out = w_var_decls(out, a, ", "@, n, g, 0);
            let out = out + "): "@;
            let out = (g.cmd)(out, *b, n);
            let out = out + ")"@;
            out
        },
    }
}

/// Formal parameters.
#[verifier::opaque]
pub open spec fn w_param(out: Seq<char>, x: CtxParamV, n: usize, g: Shown) -> Seq<char> {
    match x {
        CtxParamV::Types(a) => {
            let out = w_names(out, a, ", "@, 0);
            let out = out + " : TYPE"@;
            out
        },
        CtxParamV::Vars(a, b) => {
            let out = w_names(out, a, ", "@, 0);
            let out = out + " : "@;
            let out = (g.ty)(out, b, n);
            out
        },
    }
}

/// A context.
#[verifier::opaque]
pub open spec fn w_context(out: Seq<char>, x: SalContextV, n: usize, g: Shown) -> Seq<char> {
    let out = out + x.name.name;
    let out = if x.params.len() > 0 {
        let out = out + "{"@;
        let out = w_params(out, x.params, "; "@, n, g, 0);
        let out = out + "}"@;
        out
    } else {
        out
    };
    let out = out + ": CONTEXT ="@;
    let out = out + newline(n);
    let out = out + "BEGIN"@;
    let out = w_decl_lines(out, x.decls, ""@, deeper(n), g, 0);
    let out = out + newline(n);
    let out = out + "END"@;
    let out = out + newline(n);
    out
}

/// A declaration, on a line of its own.
#[verifier::opaque]
pub open spec fn w_decl_line(out: Seq<char>, x: DeclV, n: usize, g: Shown) -> Seq<char> {
    let out = out + newline(n);
    let out = w_decl(out, x, n, g);
    let out = out + ";"@;
    out
}

/// A declaration.
#[verifier::opaque]
pub open spec fn w_decl(out: Seq<char>, x: DeclV, n: usize, g: Shown) -> Seq<char> {
    match x {
        DeclV::Type { name, def } => {
            let out = out + name.name;
            let out = out + " : TYPE"@;
            let out = match def {
                Some(d) => {
                    let out = out + " = "@;
                    let out = w_type_def(out, d, n, g);
                    out
                },
                None => {
                    out
                },
            };
            out
        },
        DeclV::Constant { name, args, ty, value } => {
            let out = out + name.name;
            let out = if args.len() > 0 {
                let out = out + "("@;
                let out = w_var_decls(out, args, ", "@, n, g, 0);
                let out = out + ")"@;
                out
            } else {
                out
            };
            let out = out + " : "@;
            let out = (g.ty)(out, ty, n);
            let out = match value {
                Some(v) => {
                    let out = out + " = "@;
                    let out = (g.expr)(out, v, n);
                    out
                },
                None => {
                    out
                },
            };
            out
        },
        DeclV::Context { name, ctx } => {
            let out = out + name.name;
            let out = out + " : CONTEXT = "@;
            let out = w_ctx(out, ctx, n, g);
            out
        },
        DeclV::Module { name, params, body } => {
            let out = out + name.name;
            let out = if params.len() > 0 {
                let out = out + "["@;
                let out = w_var_decls(out, params, ", "@, n, g, 0);
                let out = out + "]"@;
                out
            } else {
                out
            };
            let out = out + " : MODULE ="@;
            let out = out + newline(deeper(n));
            let out = (g.module)(out, body, deeper(n));
            out
        },
        DeclV::Assertion { name, form, body } => {
            let out = out + name.name;
            let out = out + form_text(form);
            let out = w_claim(out, body, n, g);
            out
        },
        DeclV::Import { ctx, renames } => {
            let out = out + "IMPORTING "@;
            let out = w_ctx(out, ctx, n, g);
            let out = if renames.len() > 0 {
                let out = out + " WITH "@;
                let out = w_imports(out, renames, ", "@, n, g, 0);
                out
            } else {
                out
            };
            out
        },
    }
}

/// What an assertion claims.
#[verifier::opaque]
pub open spec fn w_claim(out: Seq<char>, x: AssertionExprV, n: usize, g: Shown) -> Seq<char> {
    match x {
        AssertionExprV::Models { module, formula } => {
            let out = (g.module)(out, module, n);
            let out = out + " |- "@;
            let out = (g.expr)(out, formula, n);
            out
        },
        AssertionExprV::Implements { concrete, abstract_ } => {
            let out = (g.module)(out, concrete, n);
            let out = out + " IMPLEMENTS "@;
            let out = (g.module)(out, abstract_, n);
            out
        },
    }
}

/// The definition of a type.
#[verifier::opaque]
pub open spec fn w_type_def(out: Seq<char>, x: TypeDefV, n: usize, g: Shown) -> Seq<char> {
    match x {
        TypeDefV::Type(a) => {
            let out = (g.ty)(out, a, n);
            out
        },
        TypeDefV::Scalar(a) => {
            let out = out + "{"@;
            let out = w_names(out, a, ", "@, 0);
            let out = out + "}"@;
            out
        },
        TypeDefV::Datatype(a) => {
            let out = out + "DATATYPE "@;
            let out = w_ctors(out, a, ", "@, n, g, 0);
            let out = out + " END"@;
            out
        },
        TypeDefV::Scalarset(a) => {
            let out = out + "SCALARSET("@;
            let out = (g.expr)(out, a, n);
            let out = out + ")"@;
            out
        },
        TypeDefV::Ringset(a) => {
            let out = out + "RINGSET("@;
            let out = (g.expr)(out, a, n);
            let out = out + ")"@;
            out
        },
    }
}

/// A constructor of a datatype.
#[verifier::opaque]
pub open spec fn w_ctor(out: Seq<char>, x: ConstructorV, n: usize, g: Shown) -> Seq<char> {
    let out = out + x.name.name;
    let out = if x.accessors.len() > 0 {
        let out = out + "("@;
        let out = w_var_decls(out, x.accessors, ", "@, n, g, 0);
        let out = out + ")"@;
        out
    } else {
        out
    };
    out
}

/// A pair.
#[verifier::opaque]
pub open spec fn w_entry(out: Seq<char>, x: (IdentV, ExprV), n: usize, g: Shown) -> Seq<char> {
    (g.expr)(out + x.0.name + " := "@, x.1, n)
}

/// A pair.
#[verifier::opaque]
pub open spec fn w_rename(out: Seq<char>, x: (LhsV, LhsV), n: usize, g: Shown) -> Seq<char> {
    w_lhs(w_lhs(out, x.0, n, g) + " TO "@, x.1, n, g)
}

/// A pair.
#[verifier::opaque]
pub open spec fn w_import(out: Seq<char>, x: (IdentV, IdentV), n: usize, g: Shown) -> Seq<char> {
    out + x.0.name + " TO "@ + x.1.name
}

/// The elements from `i` on, each but the first with `sep` before it.
#[verifier::opaque]
pub open spec fn w_actuals(
    out: Seq<char>,
    v: Seq<ActualV>,
    sep: Seq<char>,
    n: usize,
    g: Shown,
    i: int
) -> Seq<char>
    decreases v.len() - i,
{
    if i < 0 || i >= v.len() {
        out
    } else {
        let out = if i > 0 {
            out + sep
        } else {
            out
        };
        w_actuals(w_actual(out, v[i], n, g), v, sep, n, g, i + 1)
    }
}

/// The elements from `i` on, each but the first with `sep` before it.
#[verifier::opaque]
pub open spec fn w_tys(out: Seq<char>, v: Seq<TypeV>, sep: Seq<char>, n: usize, g: Shown, i: int) -> Seq<char>
    decreases v.len() - i,
{
    if i < 0 || i >= v.len() {
        out
    } else {
        let out = if i > 0 {
            out + sep
        } else {
            out
        };
        w_tys((g.ty)(out, v[i], n), v, sep, n, g, i + 1)
    }
}

/// The elements from `i` on, each but the first with `sep` before it.
#[verifier::opaque]
pub open spec fn w_fields(
    out: Seq<char>,
    v: Seq<FieldDeclV>,
    sep: Seq<char>,
    n: usize,
    g: Shown,
    i: int
) -> Seq<char>
    decreases v.len() - i,
{
    if i < 0 || i >= v.len() {
        out
    } else {
        let out = if i > 0 {
            out + sep
        } else {
            out
        };
        w_fields(w_field(out, v[i], n, g), v, sep, n, g, i + 1)
    }
}

/// The elements from `i` on, each but the first with `sep` before it.
#[verifier::opaque]
pub open spec fn w_exprs(out: Seq<char>, v: Seq<ExprV>, sep: Seq<char>, n: usize, g: Shown, i: int) -> Seq<char>
    decreases v.len() - i,
{
    if i < 0 || i >= v.len() {
        out
    } else {
        let out = if i > 0 {
            out + sep
        } else {
            out
        };
        w_exprs((g.expr)(out, v[i], n), v, sep, n, g, i + 1)
    }
}

/// The elements from `i` on, each but the first with `sep` before it.
#[verifier::opaque]
pub open spec fn w_accesss(
    out: Seq<char>,
    v: Seq<AccessV>,
    sep: Seq<char>,
    n: usize,
    g: Shown,
    i: int
) -> Seq<char>
    decreases v.len() - i,
{
    if i < 0 || i >= v.len() {
        out
    } else {
        let out = if i > 0 {
            out + sep
        } else {
            out
        };
        w_accesss(w_access(out, v[i], n, g), v, sep, n, g, i + 1)
    }
}

/// The elements from `i` on, each but the first with `sep` before it.
#[verifier::opaque]
pub open spec fn w_var_decls(
    out: Seq<char>,
    v: Seq<VarDeclV>,
    sep: Seq<char>,
    n: usize,
    g: Shown,
    i: int
) -> Seq<char>
    decreases v.len() - i,
{
    if i < 0 || i >= v.len() {
        out
    } else {
        let out = if i > 0 {
            out + sep
        } else {
            out
        };
        w_var_decls(w_var_decl(out, v[i], n, g), v, sep, n, g, i + 1)
    }
}

/// The elements from `i` on, each but the first with `sep` before it.
#[verifier::opaque]
pub open spec fn w_let_decls(
    out: Seq<char>,
    v: Seq<LetDeclV>,
    sep: Seq<char>,
    n: usize,
    g: Shown,
    i: int
) -> Seq<char>
    decreases v.len() - i,
{
    if i < 0 || i >= v.len() {
        out
    } else {
        let out = if i > 0 {
            out + sep
        } else {
            out
        };
        w_let_decls(w_let_decl(out, v[i], n, g), v, sep, n, g, i + 1)
    }
}

/// The elements from `i` on, each but the first with `sep` before it.
#[verifier::opaque]
pub open spec fn w_entrys(
    out: Seq<char>,
    v: Seq<(IdentV, ExprV)>,
    sep: Seq<char>,
    n: usize,
    g: Shown,
    i: int
) -> Seq<char>
    decreases v.len() - i,
{
    if i < 0 || i >= v.len() {
        out
    } else {
        let out = if i > 0 {
            out + sep
        } else {
            out
        };
        w_entrys(w_entry(out, v[i], n, g), v, sep, n, g, i + 1)
    }
}

/// The elements from `i` on, each but the first with `sep` before it.
#[verifier::opaque]
pub open spec fn w_renames(
    out: Seq<char>,
    v: Seq<(LhsV, LhsV)>,
    sep: Seq<char>,
    n: usize,
    g: Shown,
    i: int
) -> Seq<char>
    decreases v.len() - i,
{
    if i < 0 || i >= v.len() {
        out
    } else {
        let out = if i > 0 {
            out + sep
        } else {
            out
        };
        w_renames(w_rename(out, v[i], n, g), v, sep, n, g, i + 1)
    }
}

/// The elements from `i` on, each but the first with `sep` before it.
#[verifier::opaque]
pub open spec fn w_new_vars(
    out: Seq<char>,
    v: Seq<NewVarDeclV>,
    sep: Seq<char>,
    n: usize,
    g: Shown,
    i: int
) -> Seq<char>
    decreases v.len() - i,
{
    if i < 0 || i >= v.len() {
        out
    } else {
        let out = if i > 0 {
            out + sep
        } else {
            out
        };
        w_new_vars(w_new_var(out, v[i], n, g), v, sep, n, g, i + 1)
    }
}

/// The elements from `i` on, each but the first with `sep` before it.
#[verifier::opaque]
pub open spec fn w_sections(
    out: Seq<char>,
    v: Seq<BaseDeclV>,
    sep: Seq<char>,
    n: usize,
    g: Shown,
    i: int
) -> Seq<char>
    decreases v.len() - i,
{
    if i < 0 || i >= v.len() {
        out
    } else {
        let out = if i > 0 {
            out + sep
        } else {
            out
        };
        w_sections(w_section(out, v[i], n, g), v, sep, n, g, i + 1)
    }
}

/// The elements from `i` on, each but the first with `sep` before it.
#[verifier::opaque]
pub open spec fn w_def_lines(
    out: Seq<char>,
    v: Seq<DefinitionV>,
    sep: Seq<char>,
    n: usize,
    g: Shown,
    i: int
) -> Seq<char>
    decreases v.len() - i,
{
    if i < 0 || i >= v.len() {
        out
    } else {
        let out = if i > 0 {
            out + sep
        } else {
            out
        };
        w_def_lines(w_def_line(out, v[i], n, g), v, sep, n, g, i + 1)
    }
}

/// The elements from `i` on, each but the first with `sep` before it.
#[verifier::opaque]
pub open spec fn w_items(
    out: Seq<char>,
    v: Seq<DefOrCommandV>,
    sep: Seq<char>,
    n: usize,
    g: Shown,
    i: int
) -> Seq<char>
    decreases v.len() - i,
{
    if i < 0 || i >= v.len() {
        out
    } else {
        let out = if i > 0 {
            out + sep
        } else {
            out
        };
        w_items(w_item(out, v[i], n, g), v, sep, n, g, i + 1)
    }
}

/// The elements from `i` on, each but the first with `sep` before it.
#[verifier::opaque]
pub open spec fn w_definitions(
    out: Seq<char>,
    v: Seq<DefinitionV>,
    sep: Seq<char>,
    n: usize,
    g: Shown,
    i: int
) -> Seq<char>
    decreases v.len() - i,
{
    if i < 0 || i >= v.len() {
        out
    } else {
        let out = if i > 0 {
            out + sep
        } else {
            out
        };
        w_definitions((g.def)(out, v[i], n), v, sep, n, g, i + 1)
    }
}

/// The elements from `i` on, each but the first with `sep` before it.
#[verifier::opaque]
pub open spec fn w_commands(
    out: Seq<char>,
    v: Seq<SomeCommandV>,
    sep: Seq<char>,
    n: usize,
    g: Shown,
    i: int
) -> Seq<char>
    decreases v.len() - i,
{
    if i < 0 || i >= v.len() {
        out
    } else {
        let out = if i > 0 {
            out + sep
        } else {
            out
        };
        w_commands((g.cmd)(out, v[i], n), v, sep, n, g, i + 1)
    }
}

/// The elements from `i` on, each but the first with `sep` before it.
#[verifier::opaque]
pub open spec fn w_params(
    out: Seq<char>,
    v: Seq<CtxParamV>,
    sep: Seq<char>,
    n: usize,
    g: Shown,
    i: int
) -> Seq<char>
    decreases v.len() - i,
{
    if i < 0 || i >= v.len() {
        out
    } else {
        let out = if i > 0 {
            out + sep
        } else {
            out
        };
        w_params(w_param(out, v[i], n, g), v, sep, n, g, i + 1)
    }
}

/// The elements from `i` on, each but the first with `sep` before it.
#[verifier::opaque]
pub open spec fn w_decl_lines(
    out: Seq<char>,
    v: Seq<DeclV>,
    sep: Seq<char>,
    n: usize,
    g: Shown,
    i: int
) -> Seq<char>
    decreases v.len() - i,
{
    if i < 0 || i >= v.len() {
        out
    } else {
        let out = if i > 0 {
            out + sep
        } else {
            out
        };
        w_decl_lines(w_decl_line(out, v[i], n, g), v, sep, n, g, i + 1)
    }
}

/// The elements from `i` on, each but the first with `sep` before it.
#[verifier::opaque]
pub open spec fn w_imports(
    out: Seq<char>,
    v: Seq<(IdentV, IdentV)>,
    sep: Seq<char>,
    n: usize,
    g: Shown,
    i: int
) -> Seq<char>
    decreases v.len() - i,
{
    if i < 0 || i >= v.len() {
        out
    } else {
        let out = if i > 0 {
            out + sep
        } else {
            out
        };
        w_imports(w_import(out, v[i], n, g), v, sep, n, g, i + 1)
    }
}

/// The elements from `i` on, each but the first with `sep` before it.
#[verifier::opaque]
pub open spec fn w_ctors(
    out: Seq<char>,
    v: Seq<ConstructorV>,
    sep: Seq<char>,
    n: usize,
    g: Shown,
    i: int
) -> Seq<char>
    decreases v.len() - i,
{
    if i < 0 || i >= v.len() {
        out
    } else {
        let out = if i > 0 {
            out + sep
        } else {
            out
        };
        w_ctors(w_ctor(out, v[i], n, g), v, sep, n, g, i + 1)
    }
}

/// A printer.
struct Printer {
    out: String,
}

impl Printer {
    fn nl(&mut self, n: usize)
        ensures
            final(self).out@ == old(self).out@ + newline(n),
    {
        let ghost o = self.out@;
        put(&mut self.out, "\n");
        let mut i: usize = 0;
        assert(self.out@ =~= o + "\n"@ + repeated(' ', 0));
        while i < n
            invariant
                i <= n,
                self.out@ == o + "\n"@ + repeated(' ', (2 * i) as nat),
            decreases n - i,
        {
            self.out.push(' ');
            self.out.push(' ');
            i += 1;
            assert(self.out@ =~= o + "\n"@ + repeated(' ', (2 * i) as nat));
        }
        assert(self.out@ =~= o + newline(n));
    }

    fn repeat(&mut self, c: char, n: u32)
        ensures
            final(self).out@ == old(self).out@ + repeated(c, n as nat),
    {
        let ghost o = self.out@;
        let mut i: u32 = 0;
        assert(self.out@ =~= o + repeated(c, 0));
        while i < n
            invariant
                i <= n,
                self.out@ == o + repeated(c, i as nat),
            decreases n - i,
        {
            self.out.push(c);
            i += 1;
            assert(self.out@ =~= o + repeated(c, i as nat));
        }
    }

    fn names(&mut self, v: &Vec<Ident>, sep: &str)
        ensures
            final(self).out@ == w_names(old(self).out@, ident_models(v@), sep@, 0),
    {
        let ghost ms = ident_models(v@);
        let mut i: usize = 0;
        while i < v.len()
            invariant
                i <= v@.len(),
                ms == ident_models(v@),
                w_names(self.out@, ms, sep@, i as int) == w_names(old(self).out@, ms, sep@, 0),
            decreases v.len() - i,
        {
            proof {
                reveal_with_fuel(w_names, 1);
                assert(ms[i as int] == v@[i as int].model());
            }
            if i > 0 {
                put(&mut self.out, sep);
            }
            put(&mut self.out, v[i].name.as_str());
            i += 1;
        }
        proof {
            reveal_with_fuel(w_names, 1);
        }
    }

    fn label(&mut self, x: &Option<Ident>, n: usize, k: usize)
        ensures
            final(self).out@ == w_label(old(self).out@, opt_ident(*x), n, shown(k as nat)),
    {
        proof {
            reveal(w_label);
        }
        match x {
            Some(l) => {
                put(&mut self.out, l.name.as_str());
                put(&mut self.out, ": ");
            },
            None => {},
        }
    }

    fn guard(&mut self, x: &Option<Expr>, n: usize, k: usize)
        ensures
            final(self).out@ == w_guard(old(self).out@, opt_expr(*x), n, shown(k as nat)),
        decreases k, 1nat,
    {
        proof {
            reveal(w_guard);
        }
        match x {
            Some(e) => self.expr(e, n, k),
            None => put(&mut self.out, "ELSE"),
        }
    }

    fn prec(&mut self, x: &Expr, min: u8, rhs: bool, n: usize, k: usize)
        ensures
            final(self).out@ == w_prec(old(self).out@, x.model(), min, rhs, n, shown(k as nat)),
        decreases k, 1nat,
    {
        let bound: Option<(u8, bool)> = match &x.kind {
            ExprKind::Binary(op, _, _) => Some((binds(*op), *op == BinOp::Implies)),
            ExprKind::Unary(UnOp::Not, _) => Some((50, false)),
            ExprKind::Unary(UnOp::Minus, _) => Some((85, false)),
            ExprKind::Update { target, accesses, value } => Some((60, false)),
            ExprKind::Lambda(_, _) => Some((0, false)),
            ExprKind::Quantified(_, _, _) => Some((0, false)),
            ExprKind::Let(_, _) => Some((0, false)),
            _ => None,
        };
        proof {
            assert(x.model().kind == x.kind.model());
            assert(bound == binding(x.kind.model()));
            reveal(w_prec);
        }
        let wrap = x.parens == 0 && match bound {
            Some((bp, right)) => bp < min || (bp == min && right != rhs),
            None => false,
        };
        if wrap {
            put(&mut self.out, "(");
        }
        self.expr(x, n, k);
        if wrap {
            put(&mut self.out, ")");
        }
    }

    fn mprec(&mut self, x: &Module, min: u8, rhs: bool, n: usize, k: usize)
        ensures
            final(self).out@ == w_mprec(old(self).out@, x.model(), min, rhs, n, shown(k as nat)),
        decreases k, 1nat,
    {
        let bound: Option<u8> = match &x.kind {
            ModuleKind::Async(_, _) => Some(1),
            ModuleKind::Sync(_, _) => Some(2),
            ModuleKind::Hide(_, _) => Some(0),
            ModuleKind::NewOutput(_, _) => Some(0),
            ModuleKind::Rename(_, _) => Some(0),
            ModuleKind::With(_, _) => Some(0),
            ModuleKind::Observe(_, _) => Some(0),
            _ => None,
        };
        proof {
            assert(x.model().kind == x.kind.model());
            assert(bound == module_binding(x.kind.model()));
            reveal(w_mprec);
        }
        let wrap = x.parens == 0 && match bound {
            Some(bp) => bp < min || (bp == min && rhs),
            None => false,
        };
        if wrap {
            put(&mut self.out, "(");
        }
        self.module(x, n, k);
        if wrap {
            put(&mut self.out, ")");
        }
    }

    fn tail(&mut self, x: &Expr, n: usize, k: usize)
        ensures
            final(self).out@ == (shown(k as nat).tail)(old(self).out@, x.model(), n),
        decreases k, 0nat,
    {
        proof {
            shown_rules(k as nat);
            assert(x.model().kind == x.kind.model());
        }
        if k == 0 {
            return ;
        }
        let k: usize = k - 1;
        proof {
            reveal(w_tail);
        }
        match &x.kind {
            ExprKind::Conditional { cond, then_, els, is_elsif } => {
                if *is_elsif && x.parens == 0 {
                    put(&mut self.out, " ELSIF ");
                    self.expr(cond, n, k);
                    put(&mut self.out, " THEN ");
                    self.expr(then_, n, k);
                    self.tail(els, n, k);
                    return ;
                }
            },
            _ => {},
        }
        put(&mut self.out, " ELSE ");
        self.expr(x, n, k);
    }

    fn ctx(&mut self, x: &ContextName, n: usize, k: usize)
        ensures
            final(self).out@ == w_ctx(old(self).out@, x.model(), n, shown(k as nat)),
        decreases k, 3nat,
    {
        proof {
            reveal(w_ctx);
        }
        put(&mut self.out, x.name.name.as_str());
        if x.actuals.len() > 0 {
            put(&mut self.out, "{");
            self.actuals(&x.actuals, ", ", n, k);
            put(&mut self.out, "}");
        }
    }

    fn actual(&mut self, x: &Actual, n: usize, k: usize)
        ensures
            final(self).out@ == w_actual(old(self).out@, x.model(), n, shown(k as nat)),
        decreases k, 1nat,
    {
        proof {
            reveal(w_actual);
        }
        match x {
            Actual::Expr(e) => {
                self.expr(e, n, k);
            },
            Actual::Type(t) => {
                self.ty(t, n, k);
            },
        }
    }

    fn name(&mut self, x: &Name, n: usize, k: usize)
        ensures
            final(self).out@ == w_name(old(self).out@, x.model(), n, shown(k as nat)),
        decreases k, 4nat,
    {
        proof {
            reveal(w_name);
        }
        match &x.ctx {
            Some(c) => {
                self.ctx(c, n, k);
                put(&mut self.out, "!");
            },
            None => {
            },
        }
        put(&mut self.out, x.id.name.as_str());
    }

    fn ty(&mut self, x: &Type, n: usize, k: usize)
        ensures
            final(self).out@ == (shown(k as nat).ty)(old(self).out@, x.model(), n),
        decreases k, 0nat,
    {
        proof {
            shown_rules(k as nat);
        }
        if k == 0 {
            return ;
        }
        let k: usize = k - 1;
        proof {
            reveal(w_ty);
        }
        self.type_kind(&x.kind, n, k);
    }

    fn type_kind(&mut self, x: &TypeKind, n: usize, k: usize)
        ensures
            final(self).out@ == w_type_kind(old(self).out@, x.model(), n, shown(k as nat)),
        decreases k, 5nat,
    {
        proof {
            reveal(w_type_kind);
        }
        match x {
            TypeKind::Name(a) => {
                self.name(a, n, k);
            },
            TypeKind::Subrange(a, b) => {
                put(&mut self.out, "[");
                self.expr(a, n, k);
                put(&mut self.out, " .. ");
                self.expr(b, n, k);
                put(&mut self.out, "]");
            },
            TypeKind::Subtype(a) => {
                self.set_pred(a, n, k);
            },
            TypeKind::Array(a, b) => {
                put(&mut self.out, "ARRAY ");
                self.ty(a, n, k);
                put(&mut self.out, " OF ");
                self.ty(b, n, k);
            },
            TypeKind::Tuple(a) => {
                put(&mut self.out, "[");
                self.tys(a, ", ", n, k);
                put(&mut self.out, "]");
            },
            TypeKind::Function(a, b) => {
                put(&mut self.out, "[");
                self.ty(a, n, k);
                put(&mut self.out, " -> ");
                self.ty(b, n, k);
                put(&mut self.out, "]");
            },
            TypeKind::Record(a) => {
                put(&mut self.out, "[# ");
                self.fields(a, ", ", n, k);
                put(&mut self.out, " #]");
            },
            TypeKind::State(a) => {
                put(&mut self.out, "STATE_TYPE(");
                self.module(a, n, k);
                put(&mut self.out, ")");
            },
        }
    }

    fn field(&mut self, x: &FieldDecl, n: usize, k: usize)
        ensures
            final(self).out@ == w_field(old(self).out@, x.model(), n, shown(k as nat)),
        decreases k, 1nat,
    {
        proof {
            reveal(w_field);
        }
        put(&mut self.out, x.name.name.as_str());
        put(&mut self.out, ": ");
        self.ty(&x.ty, n, k);
    }

    fn set_pred(&mut self, x: &SetPred, n: usize, k: usize)
        ensures
            final(self).out@ == w_set_pred(old(self).out@, x.model(), n, shown(k as nat)),
        decreases k, 1nat,
    {
        proof {
            reveal(w_set_pred);
        }
        put(&mut self.out, "{");
        put(&mut self.out, x.var.name.as_str());
        put(&mut self.out, " : ");
        self.ty(&x.ty, n, k);
        put(&mut self.out, " | ");
        self.expr(&x.pred, n, k);
        put(&mut self.out, "}");
    }

    fn var_decl(&mut self, x: &VarDecl, n: usize, k: usize)
        ensures
            final(self).out@ == w_var_decl(old(self).out@, x.model(), n, shown(k as nat)),
        decreases k, 1nat,
    {
        proof {
            reveal(w_var_decl);
        }
        self.names(&x.names, ", ");
        put(&mut self.out, " : ");
        self.ty(&x.ty, n, k);
    }

    fn expr(&mut self, x: &Expr, n: usize, k: usize)
        ensures
            final(self).out@ == (shown(k as nat).expr)(old(self).out@, x.model(), n),
        decreases k, 0nat,
    {
        proof {
            shown_rules(k as nat);
        }
        if k == 0 {
            return ;
        }
        let k: usize = k - 1;
        proof {
            reveal(w_expr);
        }
        self.repeat('(', x.parens);
        self.expr_kind(&x.kind, n, k);
        self.repeat(')', x.parens);
    }

    fn expr_kind(&mut self, x: &ExprKind, n: usize, k: usize)
        ensures
            final(self).out@ == w_expr_kind(old(self).out@, x.model(), n, shown(k as nat)),
        decreases k, 5nat,
    {
        proof {
            reveal(w_expr_kind);
        }
        match x {
            ExprKind::Name(a) => {
                self.name(a, n, k);
            },
            ExprKind::Next(a) => {
                put(&mut self.out, a.name.as_str());
                put(&mut self.out, "'");
            },
            ExprKind::Numeral(a) => {
                put(&mut self.out, a.as_str());
            },
            ExprKind::Float { numer, denom } => {
                put(&mut self.out, print_float(numer, denom).as_str());
            },
            ExprKind::Str(a) => {
                put(&mut self.out, "\"");
                put(&mut self.out, a.as_str());
                put(&mut self.out, "\"");
            },
            ExprKind::Binary(o, a, b) => {
                self.prec(a, binds(*o), false, n, k);
                put(&mut self.out, " ");
                put(&mut self.out, o.name());
                put(&mut self.out, " ");
                self.prec(b, binds(*o), true, n, k);
            },
            ExprKind::Unary(o, a) => {
                if *o == UnOp::Not {
                    put(&mut self.out, "NOT ");
                    self.prec(a, 50, true, n, k);
                } else {
                    put(&mut self.out, "-");
                    self.prec(a, 85, true, n, k);
                }
            },
            ExprKind::App(a, b) => {
                self.prec(a, 100, false, n, k);
                put(&mut self.out, "(");
                self.exprs(b, ", ", n, k);
                put(&mut self.out, ")");
            },
            ExprKind::ArraySelect(a, b) => {
                self.prec(a, 100, false, n, k);
                put(&mut self.out, "[");
                self.expr(b, n, k);
                put(&mut self.out, "]");
            },
            ExprKind::RecordSelect(a, b) => {
                self.prec(a, 100, false, n, k);
                put(&mut self.out, ".");
                put(&mut self.out, b.name.as_str());
            },
            ExprKind::TupleSelect(a, b) => {
                self.prec(a, 100, false, n, k);
                put(&mut self.out, ".");
                put(&mut self.out, Int::from_u64(*b as u64).text().as_str());
            },
            ExprKind::Update { target, accesses, value } => {
                self.prec(target, 60, false, n, k);
                put(&mut self.out, " WITH ");
                self.accesss(accesses, "", n, k);
                put(&mut self.out, " := ");
                self.prec(value, 61, true, n, k);
            },
            ExprKind::Lambda(a, b) => {
                put(&mut self.out, "LAMBDA (");
                self.var_decls(a, ", ", n, k);
                put(&mut self.out, "): ");
                self.expr(b, n, k);
            },
            ExprKind::Quantified(q, a, b) => {
                if *q == Quantifier::Forall {
                    put(&mut self.out, "FORALL (");
                } else {
                    put(&mut self.out, "EXISTS (");
                }
                self.var_decls(a, ", ", n, k);
                put(&mut self.out, "): ");
                self.expr(b, n, k);
            },
            ExprKind::Let(a, b) => {
                put(&mut self.out, "LET ");
                self.let_decls(a, ", ", n, k);
                put(&mut self.out, " IN ");
                self.expr(b, n, k);
            },
            ExprKind::SetPred(a) => {
                self.set_pred(a, n, k);
            },
            ExprKind::SetList(a) => {
                put(&mut self.out, "{");
                self.exprs(a, ", ", n, k);
                put(&mut self.out, "}");
            },
            ExprKind::ArrayLit(a, b) => {
                put(&mut self.out, "[[");
                put(&mut self.out, name_of_first(&a.names).as_str());
                put(&mut self.out, " : ");
                self.ty(&a.ty, n, k);
                put(&mut self.out, "] ");
                self.expr(b, n, k);
                put(&mut self.out, "]");
            },
            ExprKind::RecordLit(a) => {
                put(&mut self.out, "(# ");
                self.entrys(a, ", ", n, k);
                put(&mut self.out, " #)");
            },
            ExprKind::TupleLit(a) => {
                put(&mut self.out, "(");
                self.exprs(a, ", ", n, k);
                put(&mut self.out, ")");
            },
            ExprKind::Conditional { cond, then_, els, is_elsif } => {
                put(&mut self.out, "IF ");
                self.expr(cond, n, k);
                put(&mut self.out, " THEN ");
                self.expr(then_, n, k);
                self.tail(els, n, k);
                put(&mut self.out, " ENDIF");
            },
            ExprKind::ModInit(a) => {
                put(&mut self.out, "INIT_PRED(");
                self.module(a, n, k);
                put(&mut self.out, ")");
            },
            ExprKind::ModTrans(a) => {
                put(&mut self.out, "TRANS_PRED(");
                self.module(a, n, k);
                put(&mut self.out, ")");
            },
            ExprKind::Unbounded => {
                put(&mut self.out, "_");
            },
        }
    }

    fn let_decl(&mut self, x: &LetDecl, n: usize, k: usize)
        ensures
            final(self).out@ == w_let_decl(old(self).out@, x.model(), n, shown(k as nat)),
        decreases k, 1nat,
    {
        proof {
            reveal(w_let_decl);
        }
        put(&mut self.out, x.name.name.as_str());
        put(&mut self.out, " : ");
        self.ty(&x.ty, n, k);
        put(&mut self.out, " = ");
        self.expr(&x.value, n, k);
    }

    fn access(&mut self, x: &Access, n: usize, k: usize)
        ensures
            final(self).out@ == w_access(old(self).out@, x.model(), n, shown(k as nat)),
        decreases k, 2nat,
    {
        proof {
            reveal(w_access);
        }
        match x {
            Access::Array(a) => {
                put(&mut self.out, "[");
                self.expr(a, n, k);
                put(&mut self.out, "]");
            },
            Access::Record(a) => {
                put(&mut self.out, ".");
                put(&mut self.out, a.name.as_str());
            },
            Access::Tuple(a) => {
                put(&mut self.out, ".");
                put(&mut self.out, Int::from_u64(*a as u64).text().as_str());
            },
            Access::Args(a) => {
                put(&mut self.out, "(");
                self.exprs(a, ", ", n, k);
                put(&mut self.out, ")");
            },
        }
    }

    fn module(&mut self, x: &Module, n: usize, k: usize)
        ensures
            final(self).out@ == (shown(k as nat).module)(old(self).out@, x.model(), n),
        decreases k, 0nat,
    {
        proof {
            shown_rules(k as nat);
        }
        if k == 0 {
            return ;
        }
        let k: usize = k - 1;
        proof {
            reveal(w_module);
        }
        self.repeat('(', x.parens);
        self.module_kind(&x.kind, n, k);
        self.repeat(')', x.parens);
    }

    fn module_kind(&mut self, x: &ModuleKind, n: usize, k: usize)
        ensures
            final(self).out@ == w_module_kind(old(self).out@, x.model(), n, shown(k as nat)),
        decreases k, 7nat,
    {
        proof {
            reveal(w_module_kind);
        }
        match x {
            ModuleKind::Instance(a, b) => {
                self.name(a, n, k);
                if b.len() > 0 {
                    put(&mut self.out, "[");
                    self.exprs(b, ", ", n, k);
                    put(&mut self.out, "]");
                }
            },
            ModuleKind::Sync(a, b) => {
                self.mprec(a, 2, false, n, k);
                put(&mut self.out, " || ");
                self.mprec(b, 2, true, n, k);
            },
            ModuleKind::Async(a, b) => {
                self.mprec(a, 1, false, n, k);
                put(&mut self.out, " [] ");
                self.mprec(b, 1, true, n, k);
            },
            ModuleKind::MultiSync(a, b) => {
                put(&mut self.out, "(|| (");
                put(&mut self.out, name_of_first(&a.names).as_str());
                put(&mut self.out, " : ");
                self.ty(&a.ty, n, k);
                put(&mut self.out, "): ");
                self.module(b, n, k);
                put(&mut self.out, ")");
            },
            ModuleKind::MultiAsync(a, b) => {
                put(&mut self.out, "([] (");
                put(&mut self.out, name_of_first(&a.names).as_str());
                put(&mut self.out, " : ");
                self.ty(&a.ty, n, k);
                put(&mut self.out, "): ");
                self.module(b, n, k);
                put(&mut self.out, ")");
            },
            ModuleKind::Hide(a, b) => {
                put(&mut self.out, "LOCAL ");
                self.names(a, ", ");
                put(&mut self.out, " IN ");
                self.module(b, n, k);
            },
            ModuleKind::NewOutput(a, b) => {
                put(&mut self.out, "OUTPUT ");
                self.names(a, ", ");
                put(&mut self.out, " IN ");
                self.module(b, n, k);
            },
            ModuleKind::Rename(a, b) => {
                put(&mut self.out, "RENAME ");
                self.renames(a, ", ", n, k);
                put(&mut self.out, " IN ");
                self.module(b, n, k);
            },
            ModuleKind::With(a, b) => {
                put(&mut self.out, "WITH ");
                self.new_vars(a, "; ", n, k);
                put(&mut self.out, " ");
                self.module(b, n, k);
            },
            ModuleKind::Observe(a, b) => {
                put(&mut self.out, "OBSERVE ");
                self.mprec(a, 1, false, n, k);
                put(&mut self.out, " WITH ");
                self.module(b, n, k);
            },
            ModuleKind::Base(a) => {
                self.base(a, n, k);
            },
        }
    }

    fn new_var(&mut self, x: &NewVarDecl, n: usize, k: usize)
        ensures
            final(self).out@ == w_new_var(old(self).out@, x.model(), n, shown(k as nat)),
        decreases k, 3nat,
    {
        proof {
            reveal(w_new_var);
        }
        put(&mut self.out, class_name(x.class));
        self.var_decls(&x.decls, ", ", n, k);
    }

    fn lhs(&mut self, x: &Lhs, n: usize, k: usize)
        ensures
            final(self).out@ == w_lhs(old(self).out@, x.model(), n, shown(k as nat)),
        decreases k, 4nat,
    {
        proof {
            reveal(w_lhs);
        }
        put(&mut self.out, x.base.name.as_str());
        if x.next {
            put(&mut self.out, "'");
        }
        self.accesss(&x.accesses, "", n, k);
    }

    fn base(&mut self, x: &BaseModule, n: usize, k: usize)
        ensures
            final(self).out@ == w_base(old(self).out@, x.model(), n, shown(k as nat)),
        decreases k, 6nat,
    {
        proof {
            reveal(w_base);
        }
        put(&mut self.out, "BEGIN");
        self.sections(&x.decls, "", deepen(n), k);
        self.nl(n);
        put(&mut self.out, "END");
    }

    fn section(&mut self, x: &BaseDecl, n: usize, k: usize)
        ensures
            final(self).out@ == w_section(old(self).out@, x.model(), n, shown(k as nat)),
        decreases k, 4nat,
    {
        proof {
            reveal(w_section);
        }
        match x {
            BaseDecl::Vars(c, a) => {
                self.nl(n);
                put(&mut self.out, class_name(*c));
                self.var_decls(a, ", ", n, k);
            },
            BaseDecl::Definition(a) => {
                self.nl(n);
                put(&mut self.out, "DEFINITION");
                self.def_lines(a, ";", deepen(n), k);
            },
            BaseDecl::Initialization(a) => {
                self.nl(n);
                put(&mut self.out, "INITIALIZATION");
                self.items(a, ";", deepen(n), k);
            },
            BaseDecl::Transition(a) => {
                self.nl(n);
                put(&mut self.out, "TRANSITION");
                self.items(a, ";", deepen(n), k);
            },
        }
    }

    fn def_line(&mut self, x: &Definition, n: usize, k: usize)
        ensures
            final(self).out@ == w_def_line(old(self).out@, x.model(), n, shown(k as nat)),
        decreases k, 1nat,
    {
        proof {
            reveal(w_def_line);
        }
        self.nl(n);
        self.definition(x, n, k);
    }

    fn item(&mut self, x: &DefOrCommand, n: usize, k: usize)
        ensures
            final(self).out@ == w_item(old(self).out@, x.model(), n, shown(k as nat)),
        decreases k, 2nat,
    {
        proof {
            reveal(w_item);
        }
        match x {
            DefOrCommand::Def(a) => {
                self.nl(n);
                self.definition(a, n, k);
            },
            DefOrCommand::Commands(a, s) => {
                self.nl(n);
                put(&mut self.out, "[");
                if a.len() > 0 {
                    self.nl(deepen(n));
                }
                self.commands(a, sep_text(n).as_str(), deepen(n), k);
                self.nl(n);
                put(&mut self.out, "]");
            },
        }
    }

    fn definition(&mut self, x: &Definition, n: usize, k: usize)
        ensures
            final(self).out@ == (shown(k as nat).def)(old(self).out@, x.model(), n),
        decreases k, 0nat,
    {
        proof {
            shown_rules(k as nat);
        }
        if k == 0 {
            return ;
        }
        let k: usize = k - 1;
        proof {
            reveal(w_definition);
        }
        match x {
            Definition::Simple(a) => {
                self.lhs(&a.lhs, n, k);
                self.rhs(&a.rhs, n, k);
            },
            Definition::Forall(a, b) => {
                put(&mut self.out, "(FORALL (");
                self.var_decls(a, ", ", n, k);
                put(&mut self.out, "): ");
                self.definitions(b, "; ", n, k);
                put(&mut self.out, ")");
            },
        }
    }

    fn rhs(&mut self, x: &Rhs, n: usize, k: usize)
        ensures
            final(self).out@ == w_rhs(old(self).out@, x.model(), n, shown(k as nat)),
        decreases k, 1nat,
    {
        proof {
            reveal(w_rhs);
        }
        match x {
            Rhs::Expr(a) => {
                put(&mut self.out, " = ");
                self.expr(a, n, k);
            },
            Rhs::Selection(a) => {
                put(&mut self.out, " IN ");
                self.expr(a, n, k);
            },
        }
    }

    fn guarded(&mut self, x: &GuardedCommand, n: usize, k: usize)
        ensures
            final(self).out@ == w_guarded(old(self).out@, x.model(), n, shown(k as nat)),
        decreases k, 2nat,
    {
        proof {
            reveal(w_guarded);
        }
        self.label(&x.label, n, k);
        self.guard(&x.guard, n, k);
        put(&mut self.out, " -->");
        if x.assignments.len() > 0 {
            put(&mut self.out, " ");
            self.definitions(&x.assignments, "; ", n, k);
        }
    }

    fn command(&mut self, x: &SomeCommand, n: usize, k: usize)
        ensures
            final(self).out@ == (shown(k as nat).cmd)(old(self).out@, x.model(), n),
        decreases k, 0nat,
    {
        proof {
            shown_rules(k as nat);
        }
        if k == 0 {
            return ;
        }
        let k: usize = k - 1;
        proof {
            reveal(w_command);
        }
        match x {
            SomeCommand::Guarded(a) => {
                self.guarded(a, n, k);
            },
            SomeCommand::Multi(a, b, s) => {
                put(&mut self.out, "([] (");
                self.var_decls(a, ", ", n, k);
                put(&mut self.out, "): ");
                self.command(b, n, k);
                put(&mut self.out, ")");
            },
        }
    }

    fn param(&mut self, x: &CtxParam, n: usize, k: usize)
        ensures
            final(self).out@ == w_param(old(self).out@, x.model(), n, shown(k as nat)),
        decreases k, 1nat,
    {
        proof {
            reveal(w_param);
        }
        match x {
            CtxParam::Types(a) => {
                self.names(a, ", ");
                put(&mut self.out, " : TYPE");
            },
            CtxParam::Vars(a, b) => {
                self.names(a, ", ");
                put(&mut self.out, " : ");
                self.ty(b, n, k);
            },
        }
    }

    fn context(&mut self, x: &SalContext, n: usize, k: usize)
        ensures
            final(self).out@ == w_context(old(self).out@, x.model(), n, shown(k as nat)),
        decreases k, 9nat,
    {
        proof {
            reveal(w_context);
        }
        put(&mut self.out, x.name.name.as_str());
        if x.params.len() > 0 {
            put(&mut self.out, "{");
            self.params(&x.params, "; ", n, k);
            put(&mut self.out, "}");
        }
        put(&mut self.out, ": CONTEXT =");
        self.nl(n);
        put(&mut self.out, "BEGIN");
        self.decl_lines(&x.decls, "", deepen(n), k);
        self.nl(n);
        put(&mut self.out, "END");
        self.nl(n);
    }

    fn decl_line(&mut self, x: &Decl, n: usize, k: usize)
        ensures
            final(self).out@ == w_decl_line(old(self).out@, x.model(), n, shown(k as nat)),
        decreases k, 7nat,
    {
        proof {
            reveal(w_decl_line);
        }
        self.nl(n);
        self.decl(x, n, k);
        put(&mut self.out, ";");
    }

    fn decl(&mut self, x: &Decl, n: usize, k: usize)
        ensures
            final(self).out@ == w_decl(old(self).out@, x.model(), n, shown(k as nat)),
        decreases k, 6nat,
    {
        proof {
            reveal(w_decl);
        }
        match x {
            Decl::Type { name, def } => {
                put(&mut self.out, name.name.as_str());
                put(&mut self.out, " : TYPE");
                match &*def {
                    Some(d) => {
                        put(&mut self.out, " = ");
                        self.type_def(d, n, k);
                    },
                    None => {
                    },
                }
            },
            Decl::Constant { name, args, ty, value } => {
                put(&mut self.out, name.name.as_str());
                if args.len() > 0 {
                    put(&mut self.out, "(");
                    self.var_decls(args, ", ", n, k);
                    put(&mut self.out, ")");
                }
                put(&mut self.out, " : ");
                self.ty(ty, n, k);
                match &*value {
                    Some(v) => {
                        put(&mut self.out, " = ");
                        self.expr(v, n, k);
                    },
                    None => {
                    },
                }
            },
            Decl::Context { name, ctx } => {
                put(&mut self.out, name.name.as_str());
                put(&mut self.out, " : CONTEXT = ");
                self.ctx(ctx, n, k);
            },
            Decl::Module { name, params, body } => {
                put(&mut self.out, name.name.as_str());
                if params.len() > 0 {
                    put(&mut self.out, "[");
                    self.var_decls(params, ", ", n, k);
                    put(&mut self.out, "]");
                }
                put(&mut self.out, " : MODULE =");
                self.nl(deepen(n));
                self.module(body, deepen(n), k);
            },
            Decl::Assertion { name, form, body } => {
                put(&mut self.out, name.name.as_str());
                put(&mut self.out, form_name(*form));
                self.claim(body, n, k);
            },
            Decl::Import { ctx, renames } => {
                put(&mut self.out, "IMPORTING ");
                self.ctx(ctx, n, k);
                if renames.len() > 0 {
                    put(&mut self.out, " WITH ");
                    self.imports(renames, ", ", n, k);
                }
            },
        }
    }

    fn claim(&mut self, x: &AssertionExpr, n: usize, k: usize)
        ensures
            final(self).out@ == w_claim(old(self).out@, x.model(), n, shown(k as nat)),
        decreases k, 1nat,
    {
        proof {
            reveal(w_claim);
        }
        match x {
            AssertionExpr::Models { module, formula } => {
                self.module(module, n, k);
                put(&mut self.out, " |- ");
                self.expr(formula, n, k);
            },
            AssertionExpr::Implements { concrete, abstract_ } => {
                self.module(concrete, n, k);
                put(&mut self.out, " IMPLEMENTS ");
                self.module(abstract_, n, k);
            },
        }
    }

    fn type_def(&mut self, x: &TypeDef, n: usize, k: usize)
        ensures
            final(self).out@ == w_type_def(old(self).out@, x.model(), n, shown(k as nat)),
        decreases k, 5nat,
    {
        proof {
            reveal(w_type_def);
        }
        match x {
            TypeDef::Type(a) => {
                self.ty(a, n, k);
            },
            TypeDef::Scalar(a) => {
                put(&mut self.out, "{");
                self.names(a, ", ");
                put(&mut self.out, "}");
            },
            TypeDef::Datatype(a) => {
                put(&mut self.out, "DATATYPE ");
                self.ctors(a, ", ", n, k);
                put(&mut self.out, " END");
            },
            TypeDef::Scalarset(a) => {
                put(&mut self.out, "SCALARSET(");
                self.expr(a, n, k);
                put(&mut self.out, ")");
            },
            TypeDef::Ringset(a) => {
                put(&mut self.out, "RINGSET(");
                self.expr(a, n, k);
                put(&mut self.out, ")");
            },
        }
    }

    fn ctor(&mut self, x: &Constructor, n: usize, k: usize)
        ensures
            final(self).out@ == w_ctor(old(self).out@, x.model(), n, shown(k as nat)),
        decreases k, 3nat,
    {
        proof {
            reveal(w_ctor);
        }
        put(&mut self.out, x.name.name.as_str());
        if x.accessors.len() > 0 {
            put(&mut self.out, "(");
            self.var_decls(&x.accessors, ", ", n, k);
            put(&mut self.out, ")");
        }
    }

    fn entry(&mut self, x: &(Ident, Expr), n: usize, k: usize)
        ensures
            final(self).out@ == w_entry(old(self).out@, (x.0.model(), x.1.model()), n, shown(k as nat)),
        decreases k, 1nat,
    {
        proof {
            reveal(w_entry);
        }
        put(&mut self.out, x.0.name.as_str());
        put(&mut self.out, " := ");
        self.expr(&x.1, n, k);
    }

    fn rename(&mut self, x: &(Lhs, Lhs), n: usize, k: usize)
        ensures
            final(self).out@ == w_rename(old(self).out@, (x.0.model(), x.1.model()), n, shown(k as nat)),
        decreases k, 5nat,
    {
        proof {
            reveal(w_rename);
        }
        self.lhs(&x.0, n, k);
        put(&mut self.out, " TO ");
        self.lhs(&x.1, n, k);
    }

    fn import(&mut self, x: &(Ident, Ident), n: usize, k: usize)
        ensures
            final(self).out@ == w_import(old(self).out@, (x.0.model(), x.1.model()), n, shown(k as nat)),
        decreases k, 1nat,
    {
        proof {
            reveal(w_import);
        }
        put(&mut self.out, x.0.name.as_str());
        put(&mut self.out, " TO ");
        put(&mut self.out, x.1.name.as_str());
    }

    fn actuals(&mut self, v: &Vec<Actual>, sep: &str, n: usize, k: usize)
        ensures
            final(self).out@ == w_actuals(old(self).out@, actual_models(v@), sep@, n, shown(k as nat), 0),
        decreases k, 2nat,
    {
        let ghost g = shown(k as nat);
        let ghost ms = actual_models(v@);
        let mut i: usize = 0;
        while i < v.len()
            invariant
                i <= v@.len(),
                g == shown(k as nat),
                ms == actual_models(v@),
                w_actuals(self.out@, ms, sep@, n, g, i as int) == w_actuals(old(self).out@, ms, sep@, n, g, 0),
            decreases v.len() - i,
        {
            proof {
                reveal_with_fuel(w_actuals, 1);
                assert(ms[i as int] == v@[i as int].model());
            }
            if i > 0 {
                put(&mut self.out, sep);
            }
            self.actual(&v[i], n, k);
            i += 1;
        }
        proof {
            reveal_with_fuel(w_actuals, 1);
        }
    }

    fn tys(&mut self, v: &Vec<Type>, sep: &str, n: usize, k: usize)
        ensures
            final(self).out@ == w_tys(old(self).out@, type_models(v@), sep@, n, shown(k as nat), 0),
        decreases k, 1nat,
    {
        let ghost g = shown(k as nat);
        let ghost ms = type_models(v@);
        let mut i: usize = 0;
        while i < v.len()
            invariant
                i <= v@.len(),
                g == shown(k as nat),
                ms == type_models(v@),
                w_tys(self.out@, ms, sep@, n, g, i as int) == w_tys(old(self).out@, ms, sep@, n, g, 0),
            decreases v.len() - i,
        {
            proof {
                reveal_with_fuel(w_tys, 1);
                assert(ms[i as int] == v@[i as int].model());
            }
            if i > 0 {
                put(&mut self.out, sep);
            }
            self.ty(&v[i], n, k);
            i += 1;
        }
        proof {
            reveal_with_fuel(w_tys, 1);
        }
    }

    fn fields(&mut self, v: &Vec<FieldDecl>, sep: &str, n: usize, k: usize)
        ensures
            final(self).out@ == w_fields(old(self).out@, field_decl_models(v@), sep@, n, shown(k as nat), 0),
        decreases k, 2nat,
    {
        let ghost g = shown(k as nat);
        let ghost ms = field_decl_models(v@);
        let mut i: usize = 0;
        while i < v.len()
            invariant
                i <= v@.len(),
                g == shown(k as nat),
                ms == field_decl_models(v@),
                w_fields(self.out@, ms, sep@, n, g, i as int) == w_fields(old(self).out@, ms, sep@, n, g, 0),
            decreases v.len() - i,
        {
            proof {
                reveal_with_fuel(w_fields, 1);
                assert(ms[i as int] == v@[i as int].model());
            }
            if i > 0 {
                put(&mut self.out, sep);
            }
            self.field(&v[i], n, k);
            i += 1;
        }
        proof {
            reveal_with_fuel(w_fields, 1);
        }
    }

    fn exprs(&mut self, v: &Vec<Expr>, sep: &str, n: usize, k: usize)
        ensures
            final(self).out@ == w_exprs(old(self).out@, expr_models(v@), sep@, n, shown(k as nat), 0),
        decreases k, 1nat,
    {
        let ghost g = shown(k as nat);
        let ghost ms = expr_models(v@);
        let mut i: usize = 0;
        while i < v.len()
            invariant
                i <= v@.len(),
                g == shown(k as nat),
                ms == expr_models(v@),
                w_exprs(self.out@, ms, sep@, n, g, i as int) == w_exprs(old(self).out@, ms, sep@, n, g, 0),
            decreases v.len() - i,
        {
            proof {
                reveal_with_fuel(w_exprs, 1);
                assert(ms[i as int] == v@[i as int].model());
            }
            if i > 0 {
                put(&mut self.out, sep);
            }
            self.expr(&v[i], n, k);
            i += 1;
        }
        proof {
            reveal_with_fuel(w_exprs, 1);
        }
    }

    fn accesss(&mut self, v: &Vec<Access>, sep: &str, n: usize, k: usize)
        ensures
            final(self).out@ == w_accesss(old(self).out@, access_models(v@), sep@, n, shown(k as nat), 0),
        decreases k, 3nat,
    {
        let ghost g = shown(k as nat);
        let ghost ms = access_models(v@);
        let mut i: usize = 0;
        while i < v.len()
            invariant
                i <= v@.len(),
                g == shown(k as nat),
                ms == access_models(v@),
                w_accesss(self.out@, ms, sep@, n, g, i as int) == w_accesss(old(self).out@, ms, sep@, n, g, 0),
            decreases v.len() - i,
        {
            proof {
                reveal_with_fuel(w_accesss, 1);
                assert(ms[i as int] == v@[i as int].model());
            }
            if i > 0 {
                put(&mut self.out, sep);
            }
            self.access(&v[i], n, k);
            i += 1;
        }
        proof {
            reveal_with_fuel(w_accesss, 1);
        }
    }

    fn var_decls(&mut self, v: &Vec<VarDecl>, sep: &str, n: usize, k: usize)
        ensures
            final(self).out@ == w_var_decls(old(self).out@, var_decl_models(v@), sep@, n, shown(k as nat), 0),
        decreases k, 2nat,
    {
        let ghost g = shown(k as nat);
        let ghost ms = var_decl_models(v@);
        let mut i: usize = 0;
        while i < v.len()
            invariant
                i <= v@.len(),
                g == shown(k as nat),
                ms == var_decl_models(v@),
                w_var_decls(
                    self.out@,
                    ms,
                    sep@,
                    n,
                    g,
                    i as int
                ) == w_var_decls(old(self).out@, ms, sep@, n, g, 0),
            decreases v.len() - i,
        {
            proof {
                reveal_with_fuel(w_var_decls, 1);
                assert(ms[i as int] == v@[i as int].model());
            }
            if i > 0 {
                put(&mut self.out, sep);
            }
            self.var_decl(&v[i], n, k);
            i += 1;
        }
        proof {
            reveal_with_fuel(w_var_decls, 1);
        }
    }

    fn let_decls(&mut self, v: &Vec<LetDecl>, sep: &str, n: usize, k: usize)
        ensures
            final(self).out@ == w_let_decls(old(self).out@, let_decl_models(v@), sep@, n, shown(k as nat), 0),
        decreases k, 2nat,
    {
        let ghost g = shown(k as nat);
        let ghost ms = let_decl_models(v@);
        let mut i: usize = 0;
        while i < v.len()
            invariant
                i <= v@.len(),
                g == shown(k as nat),
                ms == let_decl_models(v@),
                w_let_decls(
                    self.out@,
                    ms,
                    sep@,
                    n,
                    g,
                    i as int
                ) == w_let_decls(old(self).out@, ms, sep@, n, g, 0),
            decreases v.len() - i,
        {
            proof {
                reveal_with_fuel(w_let_decls, 1);
                assert(ms[i as int] == v@[i as int].model());
            }
            if i > 0 {
                put(&mut self.out, sep);
            }
            self.let_decl(&v[i], n, k);
            i += 1;
        }
        proof {
            reveal_with_fuel(w_let_decls, 1);
        }
    }

    fn entrys(&mut self, v: &Vec<(Ident, Expr)>, sep: &str, n: usize, k: usize)
        ensures
            final(self).out@ == w_entrys(old(self).out@, ident_expr_pairs(v@), sep@, n, shown(k as nat), 0),
        decreases k, 2nat,
    {
        let ghost g = shown(k as nat);
        let ghost ms = ident_expr_pairs(v@);
        let mut i: usize = 0;
        while i < v.len()
            invariant
                i <= v@.len(),
                g == shown(k as nat),
                ms == ident_expr_pairs(v@),
                w_entrys(self.out@, ms, sep@, n, g, i as int) == w_entrys(old(self).out@, ms, sep@, n, g, 0),
            decreases v.len() - i,
        {
            proof {
                reveal_with_fuel(w_entrys, 1);
                assert(ms[i as int] == (v@[i as int].0.model(), v@[i as int].1.model()));
            }
            if i > 0 {
                put(&mut self.out, sep);
            }
            self.entry(&v[i], n, k);
            i += 1;
        }
        proof {
            reveal_with_fuel(w_entrys, 1);
        }
    }

    fn renames(&mut self, v: &Vec<(Lhs, Lhs)>, sep: &str, n: usize, k: usize)
        ensures
            final(self).out@ == w_renames(old(self).out@, lhs_lhs_pairs(v@), sep@, n, shown(k as nat), 0),
        decreases k, 6nat,
    {
        let ghost g = shown(k as nat);
        let ghost ms = lhs_lhs_pairs(v@);
        let mut i: usize = 0;
        while i < v.len()
            invariant
                i <= v@.len(),
                g == shown(k as nat),
                ms == lhs_lhs_pairs(v@),
                w_renames(self.out@, ms, sep@, n, g, i as int) == w_renames(old(self).out@, ms, sep@, n, g, 0),
            decreases v.len() - i,
        {
            proof {
                reveal_with_fuel(w_renames, 1);
                assert(ms[i as int] == (v@[i as int].0.model(), v@[i as int].1.model()));
            }
            if i > 0 {
                put(&mut self.out, sep);
            }
            self.rename(&v[i], n, k);
            i += 1;
        }
        proof {
            reveal_with_fuel(w_renames, 1);
        }
    }

    fn new_vars(&mut self, v: &Vec<NewVarDecl>, sep: &str, n: usize, k: usize)
        ensures
            final(self).out@ == w_new_vars(
                old(self).out@,
                new_var_decl_models(v@),
                sep@,
                n,
                shown(k as nat),
                0
            ),
        decreases k, 4nat,
    {
        let ghost g = shown(k as nat);
        let ghost ms = new_var_decl_models(v@);
        let mut i: usize = 0;
        while i < v.len()
            invariant
                i <= v@.len(),
                g == shown(k as nat),
                ms == new_var_decl_models(v@),
                w_new_vars(
                    self.out@,
                    ms,
                    sep@,
                    n,
                    g,
                    i as int
                ) == w_new_vars(old(self).out@, ms, sep@, n, g, 0),
            decreases v.len() - i,
        {
            proof {
                reveal_with_fuel(w_new_vars, 1);
                assert(ms[i as int] == v@[i as int].model());
            }
            if i > 0 {
                put(&mut self.out, sep);
            }
            self.new_var(&v[i], n, k);
            i += 1;
        }
        proof {
            reveal_with_fuel(w_new_vars, 1);
        }
    }

    fn sections(&mut self, v: &Vec<BaseDecl>, sep: &str, n: usize, k: usize)
        ensures
            final(self).out@ == w_sections(old(self).out@, base_decl_models(v@), sep@, n, shown(k as nat), 0),
        decreases k, 5nat,
    {
        let ghost g = shown(k as nat);
        let ghost ms = base_decl_models(v@);
        let mut i: usize = 0;
        while i < v.len()
            invariant
                i <= v@.len(),
                g == shown(k as nat),
                ms == base_decl_models(v@),
                w_sections(
                    self.out@,
                    ms,
                    sep@,
                    n,
                    g,
                    i as int
                ) == w_sections(old(self).out@, ms, sep@, n, g, 0),
            decreases v.len() - i,
        {
            proof {
                reveal_with_fuel(w_sections, 1);
                assert(ms[i as int] == v@[i as int].model());
            }
            if i > 0 {
                put(&mut self.out, sep);
            }
            self.section(&v[i], n, k);
            i += 1;
        }
        proof {
            reveal_with_fuel(w_sections, 1);
        }
    }

    fn def_lines(&mut self, v: &Vec<Definition>, sep: &str, n: usize, k: usize)
        ensures
            final(self).out@ == w_def_lines(old(self).out@, definition_models(v@), sep@, n, shown(k as nat), 0),
        decreases k, 2nat,
    {
        let ghost g = shown(k as nat);
        let ghost ms = definition_models(v@);
        let mut i: usize = 0;
        while i < v.len()
            invariant
                i <= v@.len(),
                g == shown(k as nat),
                ms == definition_models(v@),
                w_def_lines(
                    self.out@,
                    ms,
                    sep@,
                    n,
                    g,
                    i as int
                ) == w_def_lines(old(self).out@, ms, sep@, n, g, 0),
            decreases v.len() - i,
        {
            proof {
                reveal_with_fuel(w_def_lines, 1);
                assert(ms[i as int] == v@[i as int].model());
            }
            if i > 0 {
                put(&mut self.out, sep);
            }
            self.def_line(&v[i], n, k);
            i += 1;
        }
        proof {
            reveal_with_fuel(w_def_lines, 1);
        }
    }

    fn items(&mut self, v: &Vec<DefOrCommand>, sep: &str, n: usize, k: usize)
        ensures
            final(self).out@ == w_items(old(self).out@, def_or_command_models(v@), sep@, n, shown(k as nat), 0),
        decreases k, 3nat,
    {
        let ghost g = shown(k as nat);
        let ghost ms = def_or_command_models(v@);
        let mut i: usize = 0;
        while i < v.len()
            invariant
                i <= v@.len(),
                g == shown(k as nat),
                ms == def_or_command_models(v@),
                w_items(self.out@, ms, sep@, n, g, i as int) == w_items(old(self).out@, ms, sep@, n, g, 0),
            decreases v.len() - i,
        {
            proof {
                reveal_with_fuel(w_items, 1);
                assert(ms[i as int] == v@[i as int].model());
            }
            if i > 0 {
                put(&mut self.out, sep);
            }
            self.item(&v[i], n, k);
            i += 1;
        }
        proof {
            reveal_with_fuel(w_items, 1);
        }
    }

    fn definitions(&mut self, v: &Vec<Definition>, sep: &str, n: usize, k: usize)
        ensures
            final(self).out@ == w_definitions(
                old(self).out@,
                definition_models(v@),
                sep@,
                n,
                shown(k as nat),
                0
            ),
        decreases k, 1nat,
    {
        let ghost g = shown(k as nat);
        let ghost ms = definition_models(v@);
        let mut i: usize = 0;
        while i < v.len()
            invariant
                i <= v@.len(),
                g == shown(k as nat),
                ms == definition_models(v@),
                w_definitions(
                    self.out@,
                    ms,
                    sep@,
                    n,
                    g,
                    i as int
                ) == w_definitions(old(self).out@, ms, sep@, n, g, 0),
            decreases v.len() - i,
        {
            proof {
                reveal_with_fuel(w_definitions, 1);
                assert(ms[i as int] == v@[i as int].model());
            }
            if i > 0 {
                put(&mut self.out, sep);
            }
            self.definition(&v[i], n, k);
            i += 1;
        }
        proof {
            reveal_with_fuel(w_definitions, 1);
        }
    }

    fn commands(&mut self, v: &Vec<SomeCommand>, sep: &str, n: usize, k: usize)
        ensures
            final(self).out@ == w_commands(
                old(self).out@,
                some_command_models(v@),
                sep@,
                n,
                shown(k as nat),
                0
            ),
        decreases k, 1nat,
    {
        let ghost g = shown(k as nat);
        let ghost ms = some_command_models(v@);
        let mut i: usize = 0;
        while i < v.len()
            invariant
                i <= v@.len(),
                g == shown(k as nat),
                ms == some_command_models(v@),
                w_commands(
                    self.out@,
                    ms,
                    sep@,
                    n,
                    g,
                    i as int
                ) == w_commands(old(self).out@, ms, sep@, n, g, 0),
            decreases v.len() - i,
        {
            proof {
                reveal_with_fuel(w_commands, 1);
                assert(ms[i as int] == v@[i as int].model());
            }
            if i > 0 {
                put(&mut self.out, sep);
            }
            self.command(&v[i], n, k);
            i += 1;
        }
        proof {
            reveal_with_fuel(w_commands, 1);
        }
    }

    fn params(&mut self, v: &Vec<CtxParam>, sep: &str, n: usize, k: usize)
        ensures
            final(self).out@ == w_params(old(self).out@, ctx_param_models(v@), sep@, n, shown(k as nat), 0),
        decreases k, 2nat,
    {
        let ghost g = shown(k as nat);
        let ghost ms = ctx_param_models(v@);
        let mut i: usize = 0;
        while i < v.len()
            invariant
                i <= v@.len(),
                g == shown(k as nat),
                ms == ctx_param_models(v@),
                w_params(self.out@, ms, sep@, n, g, i as int) == w_params(old(self).out@, ms, sep@, n, g, 0),
            decreases v.len() - i,
        {
            proof {
                reveal_with_fuel(w_params, 1);
                assert(ms[i as int] == v@[i as int].model());
            }
            if i > 0 {
                put(&mut self.out, sep);
            }
            self.param(&v[i], n, k);
            i += 1;
        }
        proof {
            reveal_with_fuel(w_params, 1);
        }
    }

    fn decl_lines(&mut self, v: &Vec<Decl>, sep: &str, n: usize, k: usize)
        ensures
            final(self).out@ == w_decl_lines(old(self).out@, decl_models(v@), sep@, n, shown(k as nat), 0),
        decreases k, 8nat,
    {
        let ghost g = shown(k as nat);
        let ghost ms = decl_models(v@);
        let mut i: usize = 0;
        while i < v.len()
            invariant
                i <= v@.len(),
                g == shown(k as nat),
                ms == decl_models(v@),
                w_decl_lines(
                    self.out@,
                    ms,
                    sep@,
                    n,
                    g,
                    i as int
                ) == w_decl_lines(old(self).out@, ms, sep@, n, g, 0),
            decreases v.len() - i,
        {
            proof {
                reveal_with_fuel(w_decl_lines, 1);
                assert(ms[i as int] == v@[i as int].model());
            }
            if i > 0 {
                put(&mut self.out, sep);
            }
            self.decl_line(&v[i], n, k);
            i += 1;
        }
        proof {
            reveal_with_fuel(w_decl_lines, 1);
        }
    }

    fn imports(&mut self, v: &Vec<(Ident, Ident)>, sep: &str, n: usize, k: usize)
        ensures
            final(self).out@ == w_imports(old(self).out@, ident_ident_pairs(v@), sep@, n, shown(k as nat), 0),
        decreases k, 2nat,
    {
        let ghost g = shown(k as nat);
        let ghost ms = ident_ident_pairs(v@);
        let mut i: usize = 0;
        while i < v.len()
            invariant
                i <= v@.len(),
                g == shown(k as nat),
                ms == ident_ident_pairs(v@),
                w_imports(self.out@, ms, sep@, n, g, i as int) == w_imports(old(self).out@, ms, sep@, n, g, 0),
            decreases v.len() - i,
        {
            proof {
                reveal_with_fuel(w_imports, 1);
                assert(ms[i as int] == (v@[i as int].0.model(), v@[i as int].1.model()));
            }
            if i > 0 {
                put(&mut self.out, sep);
            }
            self.import(&v[i], n, k);
            i += 1;
        }
        proof {
            reveal_with_fuel(w_imports, 1);
        }
    }

    fn ctors(&mut self, v: &Vec<Constructor>, sep: &str, n: usize, k: usize)
        ensures
            final(self).out@ == w_ctors(old(self).out@, constructor_models(v@), sep@, n, shown(k as nat), 0),
        decreases k, 4nat,
    {
        let ghost g = shown(k as nat);
        let ghost ms = constructor_models(v@);
        let mut i: usize = 0;
        while i < v.len()
            invariant
                i <= v@.len(),
                g == shown(k as nat),
                ms == constructor_models(v@),
                w_ctors(self.out@, ms, sep@, n, g, i as int) == w_ctors(old(self).out@, ms, sep@, n, g, 0),
            decreases v.len() - i,
        {
            proof {
                reveal_with_fuel(w_ctors, 1);
                assert(ms[i as int] == v@[i as int].model());
            }
            if i > 0 {
                put(&mut self.out, sep);
            }
            self.ctor(&v[i], n, k);
            i += 1;
        }
        proof {
            reveal_with_fuel(w_ctors, 1);
        }
    }
}

/// The text of a context.
pub fn print_context(c: &SalContext) -> (r: String)
    ensures
        r@ == w_context(""@, c.model(), 0, shown(usize::MAX as nat)),
{
    let mut p = Printer { out: own("") };
    p.context(c, 0, usize::MAX);
    p.out
}

/// The text of an expression.
#[verifier::opaque]
pub open spec fn expr_text(e: ExprV) -> Seq<char> {
    (shown(usize::MAX as nat).expr)(""@, e, 0)
}

/// The text of an expression.
pub fn print_expr(e: &Expr) -> (r: String)
    ensures
        r@ == expr_text(e.model()),
{
    proof {
        reveal(expr_text);
    }
    let mut p = Printer { out: own("") };
    p.expr(e, 0, usize::MAX);
    p.out
}

/// The text of a module.
pub fn print_module(m: &Module) -> (r: String)
    ensures
        r@ == (shown(usize::MAX as nat).module)(""@, m.model(), 0),
{
    let mut p = Printer { out: own("") };
    p.module(m, 0, usize::MAX);
    p.out
}

/// The text of a type.
pub fn print_type(t: &Type) -> (r: String)
    ensures
        r@ == (shown(usize::MAX as nat).ty)(""@, t.model(), 0),
{
    let mut p = Printer { out: own("") };
    p.ty(t, 0, usize::MAX);
    p.out
}

} // verus!
