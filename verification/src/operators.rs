//! The operators of expressions on symbolic values.

use crate::ast::{BinOp, UnOp};
use crate::fexpr::{fe_and, fe_bool, fe_eq, fe_models, fe_not, fe_or, q_div, q_idiv, q_mod, FExpr, LeafType, FE, LT};
use crate::formula::{tf_and, tf_ite, tf_not, tf_or, TFormula, TF};
use crate::num::{euclid, Rat, Q};
use crate::sval::{sv_eq, sv_ite, SVal, SV};
use crate::text::own;
use crate::value::{Val, Value};
use vstd::prelude::*;

verus! {

/// The condition that a symbolic truth value is.
pub open spec fn condition(v: SV) -> Option<FE> {
    match v {
        SV::Ground(Val::Bool(b)) => Some(fe_bool(b)),
        SV::Sym(e, LT::Bool) => Some(e),
        _ => None,
    }
}

/// The symbolic value of a condition.
pub open spec fn lifted(e: FE) -> SV {
    match e {
        FE::Const(v) => SV::Ground(v),
        m => SV::Sym(m, LT::Bool),
    }
}

/// The formula that a symbolic truth value or formula is.
pub open spec fn formula(v: SV) -> Option<TF> {
    match v {
        SV::Formula(f) => Some(f),
        _ => match condition(v) {
            Some(e) => Some(TF::Atom(e)),
            None => None,
        },
    }
}

/// The formula that a symbolic value is.
pub fn to_formula(v: SVal) -> (r: Result<TFormula, String>)
    ensures
        match (r, formula(v.model())) {
            (Ok(f), Some(g)) => f.model() == g,
            (Err(m), None) => m@ == "boolean expression expected"@,
            _ => false,
        },
{
    match v {
        SVal::Formula(f) => Ok(f),
        other => match other.to_bool_fexpr() {
            Ok(e) => Ok(TFormula::Atom(e)),
            Err(m) => Err(m),
        },
    }
}

/// The negation.
pub fn not_sval(v: SVal) -> (r: Result<SVal, String>)
    ensures
        match v.model() {
            SV::Formula(f) => r matches Ok(x) && x.model() == SV::Formula(tf_not(f)),
            m => match condition(m) {
                Some(e) => r matches Ok(x) && x.model() == lifted(fe_not(e)),
                None => r matches Err(m) && m@ == "boolean expression expected"@,
            },
        },
{
    match v {
        SVal::Formula(f) => Ok(SVal::Formula(TFormula::not(f))),
        other => match other.to_bool_fexpr() {
            Ok(e) => Ok(SVal::from_bool_expr(FExpr::not(e))),
            Err(m) => Err(m),
        },
    }
}

/// A connective of two formulas.
pub open spec fn joined_formula(op: BinOp, a: TF, b: TF) -> TF {
    match op {
        BinOp::And => tf_and(a, b),
        BinOp::Or => tf_or(a, b),
        BinOp::Implies => tf_or(tf_not(a), b),
        BinOp::Xor => tf_or(tf_and(a, tf_not(b)), tf_and(tf_not(a), b)),
        _ => tf_or(tf_and(a, b), tf_and(tf_not(a), tf_not(b))),
    }
}

fn join_formulas(op: BinOp, a: TFormula, b: TFormula) -> (r: TFormula)
    ensures
        r.model() == joined_formula(op, a.model(), b.model()),
{
    match op {
        BinOp::And => TFormula::and(a, b),
        BinOp::Or => TFormula::or(a, b),
        BinOp::Implies => TFormula::or(TFormula::not(a), b),
        BinOp::Xor => {
            let x = TFormula::and(a.clone(), TFormula::not(b.clone()));
            TFormula::or(x, TFormula::and(TFormula::not(a), b))
        },
        _ => {
            let x = TFormula::and(a.clone(), b.clone());
            TFormula::or(x, TFormula::and(TFormula::not(a), TFormula::not(b)))
        },
    }
}

/// A connective of two conditions.
pub open spec fn joined_condition(op: BinOp, a: FE, b: FE) -> FE {
    match op {
        BinOp::And => fe_and(seq![a, b]),
        BinOp::Or => fe_or(seq![a, b]),
        BinOp::Implies => fe_or(seq![fe_not(a), b]),
        BinOp::Xor => fe_not(fe_eq(a, b)),
        _ => fe_eq(a, b),
    }
}

fn pair(a: FExpr, b: FExpr) -> (r: Vec<FExpr>)
    ensures
        fe_models(r@) == seq![a.model(), b.model()],
{
    let ghost x = a.model();
    let ghost y = b.model();
    let mut v: Vec<FExpr> = Vec::new();
    v.push(a);
    v.push(b);
    assert(fe_models(v@) =~= seq![x, y]);
    v
}

fn join_conditions(op: BinOp, a: FExpr, b: FExpr) -> (r: FExpr)
    ensures
        r.model() == joined_condition(op, a.model(), b.model()),
{
    match op {
        BinOp::And => FExpr::and(pair(a, b)),
        BinOp::Or => FExpr::or(pair(a, b)),
        BinOp::Implies => FExpr::or(pair(FExpr::not(a), b)),
        BinOp::Xor => FExpr::not(FExpr::eq(a, b)),
        _ => FExpr::eq(a, b),
    }
}

/// A connective of two symbolic values: of formulas, if one of them is a formula.
pub fn eval_bool_op(op: BinOp, a: SVal, b: SVal) -> (r: Result<SVal, String>)
    ensures
        if a.model() is Formula || b.model() is Formula {
            match (formula(a.model()), formula(b.model())) {
                (Some(f), Some(g)) => r matches Ok(x) && x.model() == SV::Formula(joined_formula(op, f, g)),
                _ => r matches Err(m) && m@ == "boolean expression expected"@,
            }
        } else {
            match (condition(a.model()), condition(b.model())) {
                (Some(e), Some(f)) => r matches Ok(x) && x.model() == lifted(joined_condition(op, e, f)),
                _ => r matches Err(m) && m@ == "boolean expression expected"@,
            }
        },
{
    if is_formula(&a) || is_formula(&b) {
        match (to_formula(a), to_formula(b)) {
            (Ok(f), Ok(g)) => Ok(SVal::Formula(join_formulas(op, f, g))),
            (Err(m), _) => Err(m),
            (_, Err(m)) => Err(m),
        }
    } else {
        match (a.to_bool_fexpr(), b.to_bool_fexpr()) {
            (Ok(e), Ok(f)) => Ok(SVal::from_bool_expr(join_conditions(op, e, f))),
            (Err(m), _) => Err(m),
            (_, Err(m)) => Err(m),
        }
    }
}

fn is_formula(v: &SVal) -> (r: bool)
    ensures
        r == (v.model() is Formula),
{
    match v {
        SVal::Formula(_f) => true,
        _ => false,
    }
}

/// The expression of a symbolic number.
pub open spec fn numeric(v: SV) -> Option<FE> {
    match v {
        SV::Ground(Val::Num(q)) => Some(FE::Const(Val::Num(q))),
        SV::Sym(e, LT::Int { min, max }) => Some(e),
        SV::Sym(e, LT::Real) => Some(e),
        SV::Sym(e, LT::Range(_lo, _hi)) => Some(e),
        _ => None,
    }
}

/// The type of a symbolic number; of a ground one, the integers.
pub open spec fn numeric_type(v: SV) -> LT {
    match v {
        SV::Sym(_e, t) => t,
        _ => LT::Int { min: None, max: None },
    }
}

/// The expression and the type of a symbolic number.
pub fn numeric_fexpr(v: &SVal) -> (r: Result<(FExpr, LeafType), String>)
    ensures
        match (r, numeric(v.model())) {
            (Ok(x), Some(e)) => x.0.model() == e && x.1@ == numeric_type(v.model()),
            (Err(m), None) => m@ == "Numeric expression expected."@,
            _ => false,
        },
{
    match v {
        SVal::Ground(Value::Num(n)) => Ok(
            (FExpr::Const(Value::Num(n.clone())), LeafType::Int { min: None, max: None }),
        ),
        SVal::Sym(e, t) => match t {
            LeafType::Int { min, max } => Ok((e.clone(), t.clone())),
            LeafType::Real => Ok((e.clone(), t.clone())),
            LeafType::Range(lo, hi) => Ok((e.clone(), t.clone())),
            _ => Err(own("Numeric expression expected.")),
        },
        _ => Err(own("Numeric expression expected.")),
    }
}

/// Equality or inequality of two symbolic values.
pub fn eval_equality(negated: bool, a: &SVal, b: &SVal) -> (r: Result<SVal, String>)
    ensures
        match sv_eq(a.model(), b.model()) {
            Some(e) => r matches Ok(x) && x.model() == lifted(
                if negated {
                    fe_not(e)
                } else {
                    e
                },
            ),
            None => r matches Err(m) && m@ == "values that cannot be compared"@,
        },
{
    match a.eq_sval(b) {
        Ok(e) => if negated {
            Ok(SVal::from_bool_expr(FExpr::not(e)))
        } else {
            Ok(SVal::from_bool_expr(e))
        },
        Err(m) => Err(m),
    }
}

/// The order of two numbers.
pub open spec fn ordered(op: BinOp, x: Q, y: Q) -> bool {
    match op {
        BinOp::Lt => x.less(y),
        BinOp::Le => x.at_most(y),
        BinOp::Gt => y.less(x),
        _ => y.at_most(x),
    }
}

/// The order of two expressions.
pub open spec fn order_fe(op: BinOp, a: FE, b: FE) -> FE {
    match op {
        BinOp::Lt => FE::Lt(Box::new(a), Box::new(b)),
        BinOp::Le => FE::Le(Box::new(a), Box::new(b)),
        BinOp::Gt => FE::Lt(Box::new(b), Box::new(a)),
        _ => FE::Le(Box::new(b), Box::new(a)),
    }
}

/// The order of two symbolic numbers.
pub fn eval_order(op: BinOp, a: &SVal, b: &SVal) -> (r: Result<SVal, String>)
    ensures
        match (a.model(), b.model()) {
            (SV::Ground(Val::Num(x)), SV::Ground(Val::Num(y))) => r matches Ok(v) && v.model() == SV::Ground(
                Val::Bool(ordered(op, x, y)),
            ),
            _ => match (numeric(a.model()), numeric(b.model())) {
                (Some(e), Some(f)) => r matches Ok(v) && v.model() == SV::Sym(order_fe(op, e, f), LT::Bool),
                _ => r matches Err(m) && m@ == "Numeric expression expected."@,
            },
        },
{
    match (a, b) {
        (SVal::Ground(Value::Num(x)), SVal::Ground(Value::Num(y))) => {
            let t = match op {
                BinOp::Lt => x.less(y),
                BinOp::Le => x.at_most(y),
                BinOp::Gt => y.less(x),
                _ => y.at_most(x),
            };
            Ok(SVal::Ground(Value::Bool(t)))
        },
        _ => match (numeric_fexpr(a), numeric_fexpr(b)) {
            (Ok(x), Ok(y)) => {
                let e = match op {
                    BinOp::Lt => FExpr::Lt(Box::new(x.0), Box::new(y.0)),
                    BinOp::Le => FExpr::Le(Box::new(x.0), Box::new(y.0)),
                    BinOp::Gt => FExpr::Lt(Box::new(y.0), Box::new(x.0)),
                    _ => FExpr::Le(Box::new(y.0), Box::new(x.0)),
                };
                Ok(SVal::Sym(e, LeafType::Bool))
            },
            (Err(m), _) => Err(m),
            (_, Err(m)) => Err(m),
        },
    }
}

/// An operation on two numbers, where it is defined.
pub open spec fn computed(op: BinOp, x: Q, y: Q) -> Option<Q> {
    match op {
        BinOp::Plus => Some(x.plus(y)),
        BinOp::Minus => Some(x.minus(y)),
        BinOp::Mult => Some(x.times(y)),
        BinOp::Div => q_div(x, y),
        BinOp::IDiv => q_idiv(x, y),
        _ => q_mod(x, y),
    }
}

/// An operation on two expressions.
pub open spec fn arith_fe(op: BinOp, a: FE, b: FE) -> FE {
    match op {
        BinOp::Plus => FE::Add(seq![a, b]),
        BinOp::Minus => FE::Add(seq![a, FE::Neg(Box::new(b))]),
        BinOp::Mult => FE::Mul(seq![a, b]),
        BinOp::Div => FE::Div(Box::new(a), Box::new(b)),
        BinOp::IDiv => FE::IDiv(Box::new(a), Box::new(b)),
        _ => FE::Mod(Box::new(a), Box::new(b)),
    }
}

/// Why an operation on numbers is not defined.
pub open spec fn undefined_text(op: BinOp) -> Seq<char> {
    if op == BinOp::Div {
        "Division by zero."@
    } else {
        "DIV/MOD require integer operands and nonzero divisor."@
    }
}

fn compute(op: BinOp, x: &Rat, y: &Rat) -> (r: Result<Rat, String>)
    ensures
        match (r, computed(op, x@, y@)) {
            (Ok(a), Some(b)) => a@ == b,
            (Err(m), None) => m@ == undefined_text(op),
            _ => false,
        },
{
    match op {
        BinOp::Plus => Ok(x.plus(y)),
        BinOp::Minus => Ok(x.minus(y)),
        BinOp::Mult => Ok(x.times(y)),
        BinOp::Div => if y.is_zero() {
            Err(own("Division by zero."))
        } else {
            Ok(x.over(y))
        },
        _ => {
            if y.is_zero() || !x.is_integer() || !y.is_integer() {
                return Err(own("DIV/MOD require integer operands and nonzero divisor."));
            }
            let (q, m) = euclid(x.numer(), y.numer());
            if op == BinOp::IDiv {
                Ok(Rat::from_integer(q))
            } else {
                Ok(Rat::from_integer(m))
            }
        },
    }
}

/// An operation on two symbolic numbers.
pub fn eval_arith(op: BinOp, a: &SVal, b: &SVal) -> (r: Result<SVal, String>)
    ensures
        match (a.model(), b.model()) {
            (SV::Ground(Val::Num(x)), SV::Ground(Val::Num(y))) => match computed(op, x, y) {
                Some(q) => r matches Ok(v) && v.model() == SV::Ground(Val::Num(q)),
                None => r matches Err(m) && m@ == undefined_text(op),
            },
            _ => match (numeric(a.model()), numeric(b.model())) {
                (Some(e), Some(f)) => r matches Ok(v) && v.model() == SV::Sym(
                    arith_fe(op, e, f),
                    numeric_type(a.model()),
                ),
                _ => r matches Err(m) && m@ == "Numeric expression expected."@,
            },
        },
{
    match (a, b) {
        (SVal::Ground(Value::Num(x)), SVal::Ground(Value::Num(y))) => match compute(op, x, y) {
            Ok(q) => Ok(SVal::Ground(Value::Num(q))),
            Err(m) => Err(m),
        },
        _ => match (numeric_fexpr(a), numeric_fexpr(b)) {
            (Ok(x), Ok(y)) => {
                let e = match op {
                    BinOp::Plus => FExpr::Add(pair(x.0, y.0)),
                    BinOp::Minus => FExpr::Add(pair(x.0, FExpr::Neg(Box::new(y.0)))),
                    BinOp::Mult => FExpr::Mul(pair(x.0, y.0)),
                    BinOp::Div => FExpr::Div(Box::new(x.0), Box::new(y.0)),
                    BinOp::IDiv => FExpr::IDiv(Box::new(x.0), Box::new(y.0)),
                    _ => FExpr::Mod(Box::new(x.0), Box::new(y.0)),
                };
                Ok(SVal::Sym(e, x.1))
            },
            (Err(m), _) => Err(m),
            (_, Err(m)) => Err(m),
        },
    }
}

/// A connective.
pub open spec fn connective(op: BinOp) -> bool {
    op == BinOp::And || op == BinOp::Or || op == BinOp::Xor || op == BinOp::Implies || op == BinOp::Iff
}

/// A comparison of numbers by size.
pub open spec fn comparison(op: BinOp) -> bool {
    op == BinOp::Lt || op == BinOp::Le || op == BinOp::Gt || op == BinOp::Ge
}

/// The value of a binary operation, or why it has none.
pub open spec fn binary_value(op: BinOp, a: SV, b: SV) -> Result<SV, Seq<char>> {
    if connective(op) {
        if a is Formula || b is Formula {
            match (formula(a), formula(b)) {
                (Some(f), Some(g)) => Ok(SV::Formula(joined_formula(op, f, g))),
                _ => Err("boolean expression expected"@),
            }
        } else {
            match (condition(a), condition(b)) {
                (Some(e), Some(f)) => Ok(lifted(joined_condition(op, e, f))),
                _ => Err("boolean expression expected"@),
            }
        }
    } else if op == BinOp::Eq || op == BinOp::Neq {
        match sv_eq(a, b) {
            Some(e) => Ok(
                lifted(
                    if op == BinOp::Neq {
                        fe_not(e)
                    } else {
                        e
                    },
                ),
            ),
            None => Err("values that cannot be compared"@),
        }
    } else if comparison(op) {
        match (a, b) {
            (SV::Ground(Val::Num(x)), SV::Ground(Val::Num(y))) => Ok(SV::Ground(Val::Bool(ordered(op, x, y)))),
            _ => match (numeric(a), numeric(b)) {
                (Some(e), Some(f)) => Ok(SV::Sym(order_fe(op, e, f), LT::Bool)),
                _ => Err("Numeric expression expected."@),
            },
        }
    } else {
        match (a, b) {
            (SV::Ground(Val::Num(x)), SV::Ground(Val::Num(y))) => match computed(op, x, y) {
                Some(q) => Ok(SV::Ground(Val::Num(q))),
                None => Err(undefined_text(op)),
            },
            _ => match (numeric(a), numeric(b)) {
                (Some(e), Some(f)) => Ok(SV::Sym(arith_fe(op, e, f), numeric_type(a))),
                _ => Err("Numeric expression expected."@),
            },
        }
    }
}

/// The value of a binary operation.
pub fn eval_binary(op: BinOp, a: SVal, b: SVal) -> (r: Result<SVal, String>)
    ensures
        match (r, binary_value(op, a.model(), b.model())) {
            (Ok(v), Ok(m)) => v.model() == m,
            (Err(e), Err(f)) => e@ == f,
            _ => false,
        },
{
    if op == BinOp::And || op == BinOp::Or || op == BinOp::Xor || op == BinOp::Implies || op == BinOp::Iff {
        eval_bool_op(op, a, b)
    } else if op == BinOp::Eq || op == BinOp::Neq {
        eval_equality(op == BinOp::Neq, &a, &b)
    } else if op == BinOp::Lt || op == BinOp::Le || op == BinOp::Gt || op == BinOp::Ge {
        eval_order(op, &a, &b)
    } else {
        eval_arith(op, &a, &b)
    }
}

/// The value of a unary operation, or why it has none.
pub open spec fn unary_value(op: UnOp, a: SV) -> Result<SV, Seq<char>> {
    if op == UnOp::Not {
        match a {
            SV::Formula(f) => Ok(SV::Formula(tf_not(f))),
            _ => match condition(a) {
                Some(e) => Ok(lifted(fe_not(e))),
                None => Err("boolean expression expected"@),
            },
        }
    } else {
        match a {
            SV::Ground(Val::Num(q)) => Ok(SV::Ground(Val::Num(q.neg()))),
            _ => match numeric(a) {
                Some(e) => Ok(SV::Sym(FE::Neg(Box::new(e)), numeric_type(a))),
                None => Err("Numeric expression expected."@),
            },
        }
    }
}

/// The value of a unary operation.
pub fn eval_unary(op: UnOp, a: SVal) -> (r: Result<SVal, String>)
    ensures
        match (r, unary_value(op, a.model())) {
            (Ok(v), Ok(m)) => v.model() == m,
            (Err(e), Err(f)) => e@ == f,
            _ => false,
        },
{
    if op == UnOp::Not {
        return not_sval(a);
    }
    match &a {
        SVal::Ground(Value::Num(q)) => Ok(SVal::Ground(Value::Num(q.negated()))),
        _ => match numeric_fexpr(&a) {
            Ok(x) => Ok(SVal::Sym(FExpr::Neg(Box::new(x.0)), x.1)),
            Err(m) => Err(m),
        },
    }
}

/// One of two values by a symbolic condition, or why there is none: of formulas, if the condition or
/// one of the values is a formula.
pub open spec fn chosen_value(c: SV, t: SV, e: SV) -> Result<SV, Seq<char>> {
    match formula(c) {
        None => Err("boolean expression expected"@),
        Some(f) => if c is Formula || t is Formula || e is Formula {
            match (formula(t), formula(e)) {
                (Some(x), Some(y)) => Ok(SV::Formula(tf_ite(f, x, y))),
                _ => Err("boolean expression expected"@),
            }
        } else {
            match sv_ite(f->Atom_0, t, e) {
                Some(v) => Ok(v),
                None => Err("values that cannot be merged"@),
            }
        },
    }
}

/// One of two values by a symbolic condition.
pub fn choose_value(c: SVal, t: SVal, e: SVal) -> (r: Result<SVal, String>)
    ensures
        match (r, chosen_value(c.model(), t.model(), e.model())) {
            (Ok(v), Ok(m)) => v.model() == m,
            (Err(x), Err(f)) => x@ == f,
            _ => false,
        },
{
    if is_formula(&c) || is_formula(&t) || is_formula(&e) {
        match to_formula(c) {
            Err(m) => Err(m),
            Ok(f) => match (to_formula(t), to_formula(e)) {
                (Ok(x), Ok(y)) => Ok(SVal::Formula(TFormula::ite(f, x, y))),
                (Err(m), _) => Err(m),
                (_, Err(m)) => Err(m),
            },
        }
    } else {
        match c.to_bool_fexpr() {
            Ok(f) => SVal::ite(&f, &t, &e),
            Err(m) => Err(m),
        }
    }
}

} // verus!
